use vstd::prelude::*;

use vstd::slice::slice_index_get;

verus! {

/// `d` divides `x` exactly.
pub open spec fn divides(d: int, x: int) -> bool {
    exists|k: int| x == #[trigger] (d * k)
}

/// Every number divides itself and divides zero.
pub proof fn lemma_divides_self_and_zero(d: int)
    ensures
        divides(d, d),
        divides(d, 0),
{
    assert(d == d * 1);
    assert(0 == d * 0);
}

/// The common divisors of `n` and `m` are the common divisors of `n` and
/// `m % n`: the heart of Euclid's algorithm.
pub proof fn lemma_common_divisors_mod(n: int, m: int)
    requires
        n > 0,
    ensures
        forall|d: int| divides(d, n) && #[trigger] divides(d, m) ==> divides(d, m % n),
        forall|d: int| divides(d, n) && #[trigger] divides(d, m % n) ==> divides(d, m),
{
    vstd::arithmetic::div_mod::lemma_fundamental_div_mod(m, n);
    let q = m / n;
    let r = m % n;
    assert forall|d: int| divides(d, n) && #[trigger] divides(d, m) implies divides(d, r) by {
        let kn = choose|k: int| n == #[trigger] (d * k);
        let km = choose|k: int| m == #[trigger] (d * k);
        assert(r == d * (km - kn * q)) by (nonlinear_arith)
            requires
                n == d * kn,
                m == d * km,
                m == q * n + r,
        ;
    }
    assert forall|d: int| divides(d, n) && #[trigger] divides(d, r) implies divides(d, m) by {
        let kn = choose|k: int| n == #[trigger] (d * k);
        let kr = choose|k: int| r == #[trigger] (d * k);
        assert(m == d * (kn * q + kr)) by (nonlinear_arith)
            requires
                n == d * kn,
                r == d * kr,
                m == q * n + r,
        ;
    }
}

/// Greatest common divisor by Euclid's algorithm: the result divides both
/// inputs, and every common divisor of the inputs divides the result.
pub fn gcd(n: u64, m: u64) -> (r: u64)
    requires
        n != 0,
        m != 0,
    ensures
        r != 0,
        divides(r as int, n as int),
        divides(r as int, m as int),
        forall|d: int|
            #[trigger] divides(d, n as int) && divides(d, m as int) ==> divides(d, r as int),
{
    let mut a = n;
    let mut b = m;
    while b != 0
        invariant
            a != 0,
            forall|d: int|
                (#[trigger] divides(d, n as int) && divides(d, m as int)) <==> (divides(
                    d,
                    a as int,
                ) && divides(d, b as int)),
        decreases b,
    {
        if b < a {
            let t = b;
            b = a;
            a = t;
        }
        let ghost olda = a as int;
        let ghost oldb = b as int;
        proof {
            lemma_common_divisors_mod(olda, oldb);
        }
        b = b % a;
        proof {
            assert(b as int == oldb % olda);
            assert forall|d: int|
                (#[trigger] divides(d, n as int) && divides(d, m as int)) <==> (divides(
                    d,
                    a as int,
                ) && divides(d, b as int)) by {
                if divides(d, n as int) && divides(d, m as int) {
                    assert(divides(d, olda) && divides(d, oldb));
                    assert(divides(d, oldb % olda));
                }
                if divides(d, a as int) && divides(d, b as int) {
                    assert(divides(d, oldb % olda));
                    assert(divides(d, oldb));
                }
            }
        }
    }
    proof {
        lemma_divides_self_and_zero(a as int);
    }
    a
}

/// The factorial of `n`.
pub open spec fn fact(n: nat) -> nat
    decreases n,
{
    if n == 0 {
        1
    } else {
        n * fact((n - 1) as nat)
    }
}

/// Factorials only grow: a later factorial is at least an earlier one.
pub proof fn lemma_fact_monotonic(i: nat, n: nat)
    requires
        i <= n,
    ensures
        fact(i) <= fact(n),
    decreases n,
{
    if i < n {
        lemma_fact_monotonic(i, (n - 1) as nat);
        assert(n * fact((n - 1) as nat) >= 1 * fact((n - 1) as nat)) by (nonlinear_arith)
            requires
                n >= 1,
        ;
    }
}

/// The product of the numbers from 1 through `n`.
pub fn factorial(n: usize) -> (r: usize)
    requires
        fact(n as nat) <= usize::MAX,
    ensures
        r == fact(n as nat),
{
    let mut r: usize = 1;
    let mut i: usize = 0;
    while i < n
        invariant
            i <= n,
            r == fact(i as nat),
            fact(n as nat) <= usize::MAX,
        decreases n - i,
    {
        i = i + 1;
        proof {
            lemma_fact_monotonic(i as nat, n as nat);
            assert(fact(i as nat) == i * fact((i - 1) as nat));
            assert(r * i == i * fact((i - 1) as nat)) by (nonlinear_arith)
                requires
                    r == fact((i - 1) as nat),
            ;
        }
        r = r * i;
    }
    r
}

/// A reference to the smallest element of a non-empty slice.
pub fn smallest(v: &[i32]) -> (r: &i32)
    requires
        v@.len() > 0,
    ensures
        v@.contains(*r),
        forall|i: int| 0 <= i < v@.len() ==> *r <= #[trigger] v@[i],
{
    let mut s = slice_index_get(v, 0);
    let mut i: usize = 1;
    while i < v.len()
        invariant
            1 <= i <= v@.len(),
            v@.contains(*s),
            forall|j: int| 0 <= j < i ==> *s <= #[trigger] v@[j],
        decreases v@.len() - i,
    {
        let x = slice_index_get(v, i);
        if *x < *s {
            s = x;
        }
        i = i + 1;
    }
    s
}

} // verus!
