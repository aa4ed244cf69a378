use vstd::arithmetic::div_mod::lemma_fundamental_div_mod;
use vstd::prelude::*;

verus! {

/// `d` divides `n`: some integer multiple of `d` equals `n`.
pub open spec fn divides(d: int, n: int) -> bool {
    exists|k: int| #[trigger] (k * d) == n
}

/// `d` divides both `n` and `m`.
pub open spec fn common_divisor(d: int, n: int, m: int) -> bool {
    divides(d, n) && divides(d, m)
}

/// `g` is the greatest common divisor of `n` and `m`: it is positive and its
/// divisors are exactly the common divisors of `n` and `m`.
pub open spec fn is_gcd(g: int, n: int, m: int) -> bool {
    &&& g > 0
    &&& forall|d: int| #[trigger] divides(d, g) <==> common_divisor(d, n, m)
}

/// `g` is the greatest common divisor of all of `s`: it is positive and its
/// divisors are exactly the integers that divide every element of `s`.
pub open spec fn is_gcd_of_all(g: int, s: Seq<u64>) -> bool {
    &&& g > 0
    &&& forall|d: int| #[trigger]
        divides(d, g) <==> (forall|j: int| 0 <= j < s.len() ==> divides(d, #[trigger] s[j] as int))
}

proof fn lemma_divides_zero(d: int)
    ensures
        divides(d, 0),
{
    assert(0 * d == 0);
}

/// Replacing `m` by `m % n` keeps the common divisors of the pair.
proof fn lemma_common_divisor_mod(d: int, n: int, m: int)
    requires
        n > 0,
        m >= 0,
    ensures
        common_divisor(d, n, m) <==> common_divisor(d, n, m % n),
{
    lemma_fundamental_div_mod(m, n);
    let q = m / n;
    let r = m % n;
    assert(m == n * q + r);
    if common_divisor(d, n, m) {
        let a = choose|a: int| #[trigger] (a * d) == m;
        let b = choose|b: int| #[trigger] (b * d) == n;
        assert((a - q * b) * d == r) by (nonlinear_arith)
            requires
                a * d == m,
                b * d == n,
                m == n * q + r,
        ;
    }
    if common_divisor(d, n, r) {
        let a = choose|a: int| #[trigger] (a * d) == r;
        let b = choose|b: int| #[trigger] (b * d) == n;
        assert((a + q * b) * d == m) by (nonlinear_arith)
            requires
                a * d == r,
                b * d == n,
                m == n * q + r,
        ;
    }
}

/// Greatest common divisor of two positive integers, by Euclid's algorithm.
pub fn gcd(n: u64, m: u64) -> (r: u64)
    requires
        n != 0,
        m != 0,
    ensures
        is_gcd(r as int, n as int, m as int),
{
    let mut a: u64 = n;
    let mut b: u64 = m;
    while b != 0
        invariant
            a > 0,
            forall|d: int| #[trigger]
                common_divisor(d, a as int, b as int) <==> common_divisor(d, n as int, m as int),
        decreases a + b,
    {
        let ghost a0 = a;
        let ghost b0 = b;
        if b < a {
            let t = b;
            b = a;
            a = t;
        }
        assert forall|d: int| #[trigger]
            common_divisor(d, a as int, (b % a) as int) <==> common_divisor(d, n as int, m as int) by {
            lemma_common_divisor_mod(d, a as int, b as int);
            assert(common_divisor(d, a0 as int, b0 as int) <==> common_divisor(d, n as int, m as int));
        }
        b = b % a;
    }
    assert forall|d: int| #[trigger] divides(d, a as int) <==> common_divisor(d, n as int, m as int) by {
        lemma_divides_zero(d);
        assert(common_divisor(d, a as int, b as int) <==> common_divisor(d, n as int, m as int));
    }
    a
}

/// Greatest common divisor of two integers, or `None` when either is zero.
pub fn checked_gcd(n: u64, m: u64) -> (r: Option<u64>)
    ensures
        r is None <==> (n == 0 || m == 0),
        r matches Some(g) ==> is_gcd(g as int, n as int, m as int),
{
    if n == 0 || m == 0 {
        None
    } else {
        Some(gcd(n, m))
    }
}

/// Greatest common divisor of a non-empty list of positive integers.
pub fn gcd_all(numbers: &Vec<u64>) -> (r: u64)
    requires
        numbers@.len() > 0,
        forall|j: int| 0 <= j < numbers@.len() ==> #[trigger] numbers@[j] != 0,
    ensures
        is_gcd_of_all(r as int, numbers@),
{
    let mut acc: u64 = numbers[0];
    let mut i: usize = 1;
    assert forall|d: int| #[trigger] divides(d, acc as int) <==> (forall|j: int|
        0 <= j < 1 ==> divides(d, #[trigger] numbers@[j] as int)) by {
        if divides(d, acc as int) {
            assert(numbers@[0] == acc);
        }
    }
    while i < numbers.len()
        invariant
            numbers@.len() > 0,
            forall|j: int| 0 <= j < numbers@.len() ==> #[trigger] numbers@[j] != 0,
            1 <= i <= numbers@.len(),
            acc > 0,
            forall|d: int| #[trigger]
                divides(d, acc as int) <==> (forall|j: int|
                    0 <= j < i ==> divides(d, #[trigger] numbers@[j] as int)),
        decreases numbers@.len() - i,
    {
        let x = numbers[i];
        let g = gcd(acc, x);
        assert forall|d: int| #[trigger] divides(d, g as int) <==> (forall|j: int|
            0 <= j < i + 1 ==> divides(d, #[trigger] numbers@[j] as int)) by {
            assert(divides(d, g as int) <==> common_divisor(d, acc as int, x as int));
            if forall|j: int| 0 <= j < i + 1 ==> divides(d, #[trigger] numbers@[j] as int) {
                assert(divides(d, numbers@[i as int] as int));
            }
        }
        acc = g;
        i = i + 1;
    }
    acc
}

} // verus!
