//! Batch prime enumeration by the sieve of Eratosthenes, with a count-only
//! fast path. Both entry points run the identical sieve core, so their
//! outputs are always consistent.

use vstd::prelude::*;
use vstd::arithmetic::div_mod::{
    lemma_fundamental_div_mod, lemma_mod_multiples_basic, lemma_mod_multiples_vanish,
};

verus! {

/// Mathematical primality: at least 2, with no divisor strictly between
/// 1 and itself.
pub open spec fn is_prime(p: int) -> bool {
    p >= 2 && forall|d: int| 2 <= d < p ==> #[trigger] (p % d) != 0
}

/// The ascending sequence of all primes `<= n`.
pub open spec fn primes_upto(n: int) -> Seq<int>
    decreases n,
{
    if n < 2 {
        Seq::empty()
    } else if is_prime(n) {
        primes_upto(n - 1).push(n)
    } else {
        primes_upto(n - 1)
    }
}

/// The number of primes `<= n`.
pub open spec fn count_primes_upto(n: int) -> nat
    decreases n,
{
    if n < 2 {
        0
    } else if is_prime(n) {
        count_primes_upto(n - 1) + 1
    } else {
        count_primes_upto(n - 1)
    }
}

/// `j` has a divisor `d` with `2 <= d < bound` that is no larger than its
/// own square root: the values the sieve has eliminated after processing
/// all indices below `bound`.
spec fn has_factor_below(j: int, bound: int) -> bool {
    exists|d: int| 2 <= d < bound && d * d <= j && #[trigger] (j % d) == 0
}

/// Two multiples of `i` less than `i` apart coincide.
proof fn lemma_multiple_in_gap(i: int, j: int, m: int)
    requires
        i >= 1,
        j % i == 0,
        m % i == 0,
        j <= m < j + i,
    ensures
        m == j,
{
    lemma_fundamental_div_mod(j, i);
    lemma_fundamental_div_mod(m, i);
    let qj = j / i;
    let qm = m / i;
    assert(qj == qm) by (nonlinear_arith)
        requires
            i >= 1,
            i * qj <= i * qm < i * qj + i,
    {
    }
}

/// Divisibility is transitive: a divisor of `i` divides every multiple
/// of `i`.
proof fn lemma_divides_transitive(d: int, i: int, m: int)
    requires
        d >= 1,
        i >= 1,
        i % d == 0,
        m % i == 0,
    ensures
        m % d == 0,
{
    lemma_fundamental_div_mod(i, d);
    lemma_fundamental_div_mod(m, i);
    let qi = i / d;
    let qm = m / i;
    assert(m == (qi * qm) * d) by (nonlinear_arith)
        requires
            i == d * qi,
            m == i * qm,
    {
    }
    lemma_mod_multiples_basic(qi * qm, d);
}

/// Every composite number has a divisor no larger than its square root.
proof fn lemma_small_factor(m: int)
    requires
        m >= 2,
        !is_prime(m),
    ensures
        exists|d: int| 2 <= d && d * d <= m && #[trigger] (m % d) == 0,
{
    let d = choose|d: int| 2 <= d < m && #[trigger] (m % d) == 0;
    lemma_fundamental_div_mod(m, d);
    let q = m / d;
    assert(q >= 2) by (nonlinear_arith)
        requires
            2 <= d < m,
            m == d * q,
    {
    }
    lemma_mod_multiples_basic(d, q);
    assert(m % q == 0) by {
        assert(d * q == m);
        assert((d * q) % q == 0);
    }
    if d * d <= m {
        assert(2 <= d && d * d <= m && m % d == 0);
    } else {
        assert(q * q <= m) by (nonlinear_arith)
            requires
                d >= 2,
                q >= 2,
                m == d * q,
                d * d > m,
        {
        }
        assert(2 <= q && q * q <= m && m % q == 0);
    }
}

/// After the sieve has run past the square root of `n`, the unmarked
/// values are exactly the primes.
proof fn lemma_sieve_complete(m: int, bound: int, n: int)
    requires
        2 <= m <= n,
        bound * bound > n,
        bound >= 2,
    ensures
        has_factor_below(m, bound) <==> !is_prime(m),
{
    if has_factor_below(m, bound) {
        let d = choose|d: int|
            2 <= d < bound && d * d <= m && #[trigger] (m % d) == 0;
        assert(d < m) by (nonlinear_arith)
            requires
                d >= 2,
                d * d <= m,
        {
        }
        assert(!is_prime(m));
    }
    if !is_prime(m) {
        lemma_small_factor(m);
        let d = choose|d: int| 2 <= d && d * d <= m && #[trigger] (m % d) == 0;
        assert(d < bound) by (nonlinear_arith)
            requires
                d >= 2,
                bound >= 2,
                d * d <= m,
                m <= n,
                bound * bound > n,
        {
        }
        assert(has_factor_below(m, bound));
    }
}

/// The shared sieve core: a density array over `0..=n` whose `true`
/// entries, after the run, are exactly the primes.
#[verifier::loop_isolation(false)]
fn sieve_flags(n: usize) -> (r: Vec<bool>)
    requires
        2 <= n < usize::MAX,
    ensures
        r@.len() == n + 1,
        forall|j: int| 0 <= j <= n ==> (r@[j] <==> is_prime(j)),
{
    let mut flags: Vec<bool> = Vec::new();
    while flags.len() < n + 1
        invariant
            n < usize::MAX,
            flags@.len() <= n + 1,
            forall|j: int| 0 <= j < flags@.len() ==> flags@[j],
        decreases n + 1 - flags.len(),
    {
        flags.push(true);
    }
    flags[0] = false;
    flags[1] = false;
    let mut i: usize = 2;
    while i <= n / i
        invariant
            2 <= i,
            2 <= n < usize::MAX,
            flags@.len() == n + 1,
            !flags@[0],
            !flags@[1],
            forall|m: int| 2 <= m <= n ==> (flags@[m] <==> !has_factor_below(m, i as int)),
        decreases n - i,
    {
        proof {
            lemma_fundamental_div_mod(n as int, i as int);
            assert(i * i <= n) by (nonlinear_arith)
                requires
                    i >= 2,
                    i <= n / i,
                    n == i * (n / i) + n % i,
                    n % i >= 0,
            {
            }
            assert(i < n) by (nonlinear_arith)
                requires
                    i >= 2,
                    i * i <= n,
            {
            }
        }
        if flags[i] {
            let mut j: usize = i * i;
            proof {
                lemma_mod_multiples_basic(i as int, i as int);
            }
            while j <= n
                invariant
                    2 <= i,
                    i * i <= j,
                    2 <= n < usize::MAX,
                    flags@.len() == n + 1,
                    !flags@[0],
                    !flags@[1],
                    (j as int) % (i as int) == 0 || j == n + 1,
                    forall|m: int| 2 <= m <= n ==> (flags@[m] <==> !(
                        has_factor_below(m, i as int)
                        || (m % (i as int) == 0 && i * i <= m < j)
                    )),
                decreases n + 1 - j,
            {
                let ghost head = flags@;
                let ghost old_j = j as int;
                flags[j] = false;
                if n - j < i {
                    j = n + 1;
                } else {
                    j = j + i;
                    proof {
                        lemma_mod_multiples_vanish(1, old_j, i as int);
                    }
                }
                proof {
                    assert(flags@ == head.update(old_j, false));
                    assert forall|m: int| 2 <= m <= n implies (flags@[m] <==> !(
                        has_factor_below(m, i as int)
                        || (m % (i as int) == 0 && i * i <= m < j)
                    )) by {
                        assert(head[m] <==> !(
                            has_factor_below(m, i as int)
                            || (m % (i as int) == 0 && i * i <= m < old_j)
                        ));
                        if m == old_j {
                            assert(!flags@[m]);
                            assert(m % (i as int) == 0 && i * i <= m < j);
                        } else {
                            assert(flags@[m] == head[m]);
                            if m % (i as int) == 0 && i * i <= m < j && m >= old_j {
                                lemma_multiple_in_gap(i as int, old_j, m);
                            }
                        }
                    }
                }
            }
            proof {
                assert forall|m: int| 2 <= m <= n implies
                    ((has_factor_below(m, i as int)
                        || (m % (i as int) == 0 && i * i <= m))
                    <==> has_factor_below(m, i + 1 as int)) by {
                    if m % (i as int) == 0 && i * i <= m {
                        assert(2 <= i < i + 1 && i * i <= m && m % (i as int) == 0);
                        assert(has_factor_below(m, i + 1 as int));
                    }
                    if has_factor_below(m, i + 1 as int) && !has_factor_below(m, i as int) {
                        let d = choose|d: int|
                            2 <= d < i + 1 && d * d <= m && #[trigger] (m % d) == 0;
                        assert(d == i as int);
                    }
                }
                assert forall|m: int| 2 <= m <= n implies
                    (flags@[m] <==> !has_factor_below(m, i as int + 1)) by {
                    let cond = has_factor_below(m, i as int)
                        || (m % (i as int) == 0 && i * i <= m);
                    assert(flags@[m] <==> !cond);
                    assert(cond <==> has_factor_below(m, i as int + 1));
                }
            }
        } else {
            proof {
                assert(has_factor_below(i as int, i as int));
                let d = choose|d: int|
                    2 <= d < i as int && d * d <= i as int && #[trigger] ((i as int) % d) == 0;
                assert forall|m: int|
                    2 <= m <= n && m % (i as int) == 0 && i * i <= m
                    implies has_factor_below(m, i as int) by {
                    lemma_divides_transitive(d, i as int, m);
                    assert(d * d <= m) by (nonlinear_arith)
                        requires
                            2 <= d,
                            2 <= i,
                            d * d <= i as int,
                            i * i <= m,
                    {
                    }
                    assert(2 <= d < i as int && d * d <= m && m % d == 0);
                }
                assert forall|m: int| 2 <= m <= n implies
                    (has_factor_below(m, i as int) <==> has_factor_below(m, i + 1 as int)) by {
                    if has_factor_below(m, i + 1 as int) && !has_factor_below(m, i as int) {
                        let e = choose|e: int|
                            2 <= e < i + 1 && e * e <= m && #[trigger] (m % e) == 0;
                        assert(e == i as int);
                    }
                }
            }
        }
        proof {
            assert forall|m: int| 2 <= m <= n implies
                (flags@[m] <==> !has_factor_below(m, i as int + 1)) by {
                let cond = has_factor_below(m, i as int)
                    || (m % (i as int) == 0 && i * i <= m);
                assert(flags@[m] <==> !cond);
                assert(cond <==> has_factor_below(m, i as int + 1));
            }
        }
        i = i + 1;
    }
    proof {
        lemma_fundamental_div_mod(n as int, i as int);
        assert(i * i > n) by (nonlinear_arith)
            requires
                i >= 2,
                i > n / i,
                n == i * (n / i) + n % i,
                0 <= n % i < i,
        {
        }
        assert forall|j: int| 0 <= j <= n implies (flags@[j] <==> is_prime(j)) by {
            if j >= 2 {
                lemma_sieve_complete(j, i as int, n as int);
            }
        }
    }
    flags
}

/// Returns all primes `<= n`, ascending; empty whenever `n < 2`.
pub fn prime_sieve(n: usize) -> (r: Vec<usize>)
    requires
        n < usize::MAX,
    ensures
        r@.map_values(|p: usize| p as int) == primes_upto(n as int),
        r@.len() == count_primes_upto(n as int),
{
    if n < 2 {
        proof {
            lemma_primes_upto(n as int);
            assert(Seq::<usize>::empty().map_values(|p: usize| p as int)
                =~= primes_upto(n as int));
        }
        return Vec::new();
    }
    let flags = sieve_flags(n);
    let mut result: Vec<usize> = Vec::new();
    let mut i: usize = 0;
    while i <= n
        invariant
            2 <= n < usize::MAX,
            i <= n + 1,
            flags@.len() == n + 1,
            forall|j: int| 0 <= j <= n ==> (flags@[j] <==> is_prime(j)),
            result@.map_values(|p: usize| p as int) =~= primes_upto(i as int - 1),
        decreases n + 1 - i,
    {
        if flags[i] {
            result.push(i);
            proof {
                assert(is_prime(i as int));
                assert(result@.map_values(|p: usize| p as int)
                    =~= primes_upto(i as int - 1).push(i as int));
            }
        }
        proof {
            if flags@[i as int] {
                assert(primes_upto(i as int) == primes_upto(i as int - 1).push(i as int));
            } else {
                assert(!is_prime(i as int));
                assert(primes_upto(i as int) == primes_upto(i as int - 1));
            }
            assert(result@.map_values(|p: usize| p as int) =~= primes_upto(i as int));
        }
        i = i + 1;
    }
    proof {
        lemma_primes_upto(n as int);
        assert(result@.map_values(|p: usize| p as int) =~= primes_upto(n as int));
    }
    result
}

/// Returns how many primes are `<= n` without materializing the list.
pub fn count_primes(n: usize) -> (r: usize)
    requires
        n < usize::MAX,
    ensures
        r == count_primes_upto(n as int),
{
    if n < 2 {
        return 0;
    }
    let flags = sieve_flags(n);
    let mut count: usize = 0;
    let mut i: usize = 0;
    while i <= n
        invariant
            2 <= n < usize::MAX,
            i <= n + 1,
            count <= i,
            flags@.len() == n + 1,
            forall|j: int| 0 <= j <= n ==> (flags@[j] <==> is_prime(j)),
            count == count_primes_upto(i as int - 1),
        decreases n + 1 - i,
    {
        if flags[i] {
            count = count + 1;
        }
        proof {
            if flags@[i as int] {
                assert(is_prime(i as int));
                assert(count_primes_upto(i as int) == count_primes_upto(i as int - 1) + 1);
            } else {
                assert(!is_prime(i as int));
                assert(count_primes_upto(i as int) == count_primes_upto(i as int - 1));
            }
        }
        i = i + 1;
    }
    count
}

/// Law of the sieve: the list of primes `<= n` and the count of primes
/// `<= n` are consistent — the list's length is the count — and the list
/// is strictly ascending and holds exactly the primes `<= n`.
pub proof fn lemma_primes_upto(n: int)
    ensures
        primes_upto(n).len() == count_primes_upto(n),
        forall|k: int, l: int|
            0 <= k < l < primes_upto(n).len() ==> primes_upto(n)[k] < primes_upto(n)[l],
        forall|p: int| #[trigger] primes_upto(n).contains(p) <==> (is_prime(p) && p <= n),
    decreases n,
{
    if n < 2 {
        assert forall|p: int| !primes_upto(n).contains(p) by {
            assert(primes_upto(n).len() == 0);
        }
    } else {
        lemma_primes_upto(n - 1);
        let prev = primes_upto(n - 1);
        assert forall|p: int| prev.contains(p) implies p < n by {}
        if is_prime(n) {
            assert forall|p: int| #[trigger] primes_upto(n).contains(p)
                implies (is_prime(p) && p <= n) by {
                let k = choose|k: int| 0 <= k < primes_upto(n).len() && primes_upto(n)[k] == p;
                if k < prev.len() {
                    assert(prev.contains(p));
                }
            }
            assert forall|p: int| is_prime(p) && p <= n
                implies #[trigger] primes_upto(n).contains(p) by {
                if p < n {
                    assert(prev.contains(p));
                    let k = choose|k: int| 0 <= k < prev.len() && prev[k] == p;
                    assert(primes_upto(n)[k] == p);
                } else {
                    assert(primes_upto(n).last() == n);
                }
            }
            assert forall|k: int, l: int| 0 <= k < l < primes_upto(n).len()
                implies primes_upto(n)[k] < primes_upto(n)[l] by {
                if l == primes_upto(n).len() - 1 {
                    assert(prev.contains(prev[k]));
                }
            }
        } else {
            assert forall|p: int| #[trigger] primes_upto(n).contains(p)
                implies (is_prime(p) && p <= n) by {}
            assert forall|p: int| is_prime(p) && p <= n
                implies #[trigger] primes_upto(n).contains(p) by {
                assert(p != n);
            }
        }
    }
}

} // verus!
