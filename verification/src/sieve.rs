//! The sieve engine: builds a primality table over `[0, max)` with the Sieve
//! of Eratosthenes, and proves that entry `i` is set exactly when `i` is prime.
use vstd::prelude::*;
use vstd::arithmetic::div_mod::lemma_fundamental_div_mod;
use vstd::arithmetic::div_mod::lemma_mod_multiples_basic;
use crate::table::PrimeTable;

verus! {

/// `n` is prime: at least 2, with no divisor strictly between 1 and itself.
pub open spec fn is_prime(n: int) -> bool {
    n >= 2 && forall|d: int| 2 <= d < n ==> #[trigger] (n % d) != 0
}

/// The table that sieving up to `n` must produce: entry `i` says whether `i` is prime.
pub open spec fn primes_up_to(n: int) -> Seq<bool> {
    Seq::new(n as nat, |i: int| is_prime(i))
}

/// `i` has survived the sieve passes for all candidates below `p`: it is at
/// least 2 and every divisor below `p` is larger than `i`'s square root.
spec fn sieved(i: int, p: int) -> bool {
    i >= 2 && forall|d: int| 2 <= d < p && #[trigger] (i % d) == 0 ==> d * d > i
}

/// Surviving the passes below a later candidate implies surviving those below
/// an earlier one.
proof fn lemma_sieved_shrink(i: int, p1: int, p2: int)
    requires
        p1 <= p2,
        sieved(i, p2),
    ensures
        sieved(i, p1),
{
}

/// Two multiples of `p` less than `p` apart are the same multiple.
proof fn lemma_multiple_in_window(i: int, multi: int, p: int)
    requires
        p >= 1,
        i % p == 0,
        multi % p == 0,
        multi <= i < multi + p,
    ensures
        i == multi,
{
    lemma_fundamental_div_mod(i, p);
    lemma_fundamental_div_mod(multi, p);
    let qi = i / p;
    let qm = multi / p;
    assert(qi == qm) by (nonlinear_arith)
        requires
            p >= 1,
            i == p * qi,
            multi == p * qm,
            multi <= i < multi + p,
    ;
}

/// Divisibility is transitive: a divisor of `p` divides every multiple of `p`.
proof fn lemma_mod_transitive(i: int, p: int, d: int)
    requires
        p >= 1,
        d >= 1,
        i % p == 0,
        p % d == 0,
    ensures
        i % d == 0,
{
    lemma_fundamental_div_mod(i, p);
    lemma_fundamental_div_mod(p, d);
    let qi = i / p;
    let qd = p / d;
    assert(i == (qd * qi) * d) by (nonlinear_arith)
        requires
            i == p * qi,
            p == d * qd,
    ;
    lemma_mod_multiples_basic(qd * qi, d);
}

/// A composite number also has a divisor no larger than its square root.
proof fn lemma_small_factor(i: int, d: int)
    requires
        2 <= d < i,
        i % d == 0,
    ensures
        exists|e: int| 2 <= e && e * e <= i && #[trigger] (i % e) == 0,
{
    lemma_fundamental_div_mod(i, d);
    let k = i / d;
    assert(k >= 2) by (nonlinear_arith)
        requires
            2 <= d < i,
            i == d * k,
    ;
    if d * d <= i {
        assert(2 <= d && d * d <= i && i % d == 0);
    } else {
        assert(k * k <= i) by (nonlinear_arith)
            requires
                2 <= d,
                2 <= k,
                i == d * k,
                d * d > i,
        ;
        lemma_mod_multiples_basic(d, k);
        assert(i % k == 0) by {
            assert(i == d * k);
        }
        assert(2 <= k && k * k <= i && i % k == 0);
    }
}

/// Primality agrees with trial division up to the square root: a number at
/// least 2 is prime exactly when no `d` with `d * d <= i` divides it.
pub proof fn lemma_prime_by_sqrt_divisors(i: int)
    requires
        2 <= i,
    ensures
        is_prime(i) <==> forall|d: int| 2 <= d && d * d <= i ==> #[trigger] (i % d) != 0,
{
    if is_prime(i) {
        assert forall|d: int| 2 <= d && d * d <= i implies #[trigger] (i % d) != 0 by {
            assert(d < i) by (nonlinear_arith)
                requires
                    2 <= d,
                    d * d <= i,
            ;
        }
    }
    if forall|d: int| 2 <= d && d * d <= i ==> #[trigger] (i % d) != 0 {
        if !is_prime(i) {
            let d = choose|d: int| 2 <= d < i && #[trigger] (i % d) == 0;
            lemma_small_factor(i, d);
        }
    }
}

/// After the sieve has run every pass below `max / 2 + 1`, surviving is the
/// same as being prime, for every entry of a table of bound `max`.
proof fn lemma_sieved_is_prime(i: int, max: int)
    requires
        2 <= max,
        0 <= i < max,
    ensures
        sieved(i, max / 2 + 1) == is_prime(i),
{
    if i < 2 {
        assert(!sieved(i, max / 2 + 1));
        assert(!is_prime(i));
    } else {
        lemma_prime_by_sqrt_divisors(i);
        if sieved(i, max / 2 + 1) {
            assert forall|d: int| 2 <= d && d * d <= i implies #[trigger] (i % d) != 0 by {
                assert(d < max / 2 + 1) by (nonlinear_arith)
                    requires
                        2 <= d,
                        d * d <= i,
                        i < max,
                        2 <= max,
                ;
            }
            assert(is_prime(i));
        }
        if is_prime(i) {
            assert forall|d: int| 2 <= d < max / 2 + 1 && #[trigger] (i % d) == 0 implies d * d > i by {
                assert(!(d * d <= i));
            }
        }
    }
}

/// The first two entries of every primality table are clear: 0 and 1 are not prime.
pub proof fn lemma_zero_one_not_prime(n: int)
    requires
        2 <= n,
    ensures
        !primes_up_to(n)[0],
        !primes_up_to(n)[1],
{
}

/// Regenerating the table at a larger bound changes no earlier answer: every
/// index below the smaller bound keeps its primality verdict.
pub proof fn lemma_regrow_preserves_prefix(n1: int, n2: int)
    requires
        0 <= n1 <= n2,
    ensures
        forall|i: int| 0 <= i < n1 ==> primes_up_to(n1)[i] == primes_up_to(n2)[i],
{
}

/// Builds the primality table for `[0, max)` by the Sieve of Eratosthenes:
/// all entries start set, entries 0 and 1 are cleared, and for every still-set
/// candidate `p` up to `max / 2` the multiples of `p` from `p * p` on are cleared.
///
/// The two bounds on `max` only keep `p * p` and `multi + p` within `usize`.
pub fn sieve_gen(max: usize) -> (r: PrimeTable)
    requires
        2 <= max,
        (max as int / 2) * (max as int / 2) <= usize::MAX as int,
        max as int + max as int / 2 <= usize::MAX as int,
    ensures
        r@ == primes_up_to(max as int),
        r@.len() == max,
{
    let mut buf = PrimeTable::repeat(true, max);

    buf.set(0, false);
    buf.set(1, false);

    assert forall|i: int| 0 <= i < max implies buf@[i] == sieved(i, 2) by {
        assert(buf@[i] == (i >= 2));
    }

    let mut p: usize = 2;
    while p < max / 2 + 1
        invariant
            2 <= p <= max / 2 + 1,
            2 <= max,
            (max as int / 2) * (max as int / 2) <= usize::MAX as int,
            max as int + max as int / 2 <= usize::MAX as int,
            buf@.len() == max,
            forall|i: int| 0 <= i < max ==> buf@[i] == sieved(i, p as int),
        decreases max / 2 + 1 - p,
    {
        if buf.get(p) {
            assert(p as int * p as int <= (max as int / 2) * (max as int / 2)) by (nonlinear_arith)
                requires
                    0 <= p as int <= max as int / 2,
            ;
            let mut multi = p * p;
            proof {
                lemma_mod_multiples_basic(p as int, p as int);
                assert(multi as int % (p as int) == 0) by {
                    assert(multi as int == p as int * p as int);
                }
                assert forall|i: int| 0 <= i < max implies buf@[i] == (sieved(i, p as int)
                    && !(p as int * p as int <= i < multi as int && i % (p as int) == 0)) by {
                    assert(buf@[i] == sieved(i, p as int));
                }
            }
            while multi < max
                invariant
                    2 <= p,
                    p as int * p as int <= multi as int,
                    multi as int % (p as int) == 0,
                    max as int + max as int / 2 <= usize::MAX as int,
                    p <= max / 2,
                    buf@.len() == max,
                    forall|i: int| 0 <= i < max ==> buf@[i] == (sieved(i, p as int)
                        && !(p as int * p as int <= i < multi as int && i % (p as int) == 0)),
                decreases max as int + p as int - multi as int,
            {
                let ghost pre = buf@;
                let ghost m0 = multi as int;
                buf.set(multi, false);
                multi += p;
                proof {
                    vstd::arithmetic::div_mod::lemma_mod_add_multiples_vanish(m0, p as int);
                    assert(multi as int % (p as int) == 0);
                    assert forall|i: int| 0 <= i < max implies buf@[i] == (sieved(i, p as int)
                        && !(p as int * p as int <= i < multi as int && i % (p as int) == 0)) by {
                        assert(pre[i] == (sieved(i, p as int)
                            && !(p as int * p as int <= i < m0 && i % (p as int) == 0)));
                        if i == m0 {
                            assert(buf@[i] == false);
                        } else {
                            assert(buf@[i] == pre[i]);
                            if p as int * p as int <= i && i % (p as int) == 0
                                && m0 <= i < multi as int {
                                lemma_multiple_in_window(i, m0, p as int);
                                assert(false);
                            }
                        }
                    }
                }
            }
            proof {
                assert forall|i: int| 0 <= i < max implies buf@[i] == sieved(i, p as int + 1) by {
                    assert(buf@[i] == (sieved(i, p as int)
                        && !(p as int * p as int <= i < multi as int && i % (p as int) == 0)));
                    if buf@[i] {
                        assert forall|d: int| 2 <= d < p as int + 1 && #[trigger] (i % d) == 0 implies d * d > i by {
                            if d == p as int {
                                assert(!(p as int * p as int <= i));
                            }
                        }
                        assert(sieved(i, p as int + 1));
                    } else {
                        if sieved(i, p as int + 1) {
                            lemma_sieved_shrink(i, p as int, p as int + 1);
                            assert(p as int * p as int <= i && i % (p as int) == 0);
                            assert(p as int * p as int > i);
                            assert(false);
                        }
                    }
                }
            }
        } else {
            proof {
                assert(!sieved(p as int, p as int));
                let d = choose|d: int| 2 <= d < p as int && #[trigger] (p as int % d) == 0 && !(d * d > p as int);
                assert forall|i: int| 0 <= i < max implies buf@[i] == sieved(i, p as int + 1) by {
                    assert(buf@[i] == sieved(i, p as int));
                    if buf@[i] {
                        assert forall|e: int| 2 <= e < p as int + 1 && #[trigger] (i % e) == 0 implies e * e > i by {
                            if e == p as int {
                                lemma_mod_transitive(i, p as int, d);
                                assert(d * d <= p as int);
                                assert(p as int <= p as int * p as int) by (nonlinear_arith)
                                    requires
                                        2 <= p as int,
                                ;
                                if p as int * p as int <= i {
                                    assert(d * d <= i);
                                    assert(i % d == 0);
                                    assert(false);
                                }
                                assert(p as int * p as int > i);
                                assert(e * e > i);
                            }
                        }
                        assert(sieved(i, p as int + 1));
                    } else {
                        if sieved(i, p as int + 1) {
                            lemma_sieved_shrink(i, p as int, p as int + 1);
                            assert(false);
                        }
                    }
                }
            }
        }
        p += 1;
    }
    proof {
        assert forall|i: int| 0 <= i < max implies buf@[i] == is_prime(i) by {
            lemma_sieved_is_prime(i, max as int);
        }
        assert(buf@ =~= primes_up_to(max as int));
    }
    buf
}

} // verus!
