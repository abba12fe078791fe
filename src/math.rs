//! Integer helpers: extremes, absolute value, primality, gcd and lcm.
use vstd::prelude::*;

verus! {

/// The larger of `a` and `b`.
pub fn max(a: i64, b: i64) -> (r: i64)
    ensures
        r == if a > b { a } else { b },
{
    if a > b {
        a
    } else {
        b
    }
}

/// The smaller of `a` and `b`.
pub fn min(a: i64, b: i64) -> (r: i64)
    ensures
        r == if a < b { a } else { b },
{
    if a < b {
        a
    } else {
        b
    }
}

/// Absolute value of an integer.
pub open spec fn abs_int(x: int) -> int {
    if x < 0 {
        -x
    } else {
        x
    }
}

/// Absolute value; the most negative value has none that fits.
pub fn abs(value: i64) -> (r: i64)
    requires
        value > i64::MIN,
    ensures
        r == abs_int(value as int),
{
    if value < 0 {
        -value
    } else {
        value
    }
}

/// `n` is prime: above 1 and divisible by no number from 2 to `n - 1`.
pub open spec fn prime(n: int) -> bool {
    n > 1 && forall|d: int| 2 <= d < n ==> #[trigger] (n % d) != 0
}

proof fn lemma_divisor_of_multiple(n: int, d: int, f: int)
    requires
        n > 0,
        d > 0,
        f > 0,
        n % (d * f) == 0,
    ensures
        n % d == 0,
{
    let q = n / (d * f);
    assert(d * f > 0) by (nonlinear_arith)
        requires
            d > 0,
            f > 0,
    ;
    assert(n == d * f * q) by (nonlinear_arith)
        requires
            n % (d * f) == 0,
            d * f > 0,
            q == n / (d * f),
    ;
    assert(n == d * (f * q)) by (nonlinear_arith)
        requires
            n == d * f * q,
    ;
    assert(n % d == 0) by (nonlinear_arith)
        requires
            n == d * (f * q),
            d > 0,
    ;
}

proof fn lemma_cofactor(n: int, d: int, i: int)
    requires
        n > 1,
        2 <= d < n,
        n % d == 0,
        i > 0,
        i * i > n,
        d >= i,
    ensures
        2 <= n / d < i,
        n % (n / d) == 0,
{
    let q = n / d;
    assert(n == d * q) by (nonlinear_arith)
        requires
            n % d == 0,
            d > 0,
            q == n / d,
    ;
    assert(q >= 2) by (nonlinear_arith)
        requires
            n == d * q,
            d < n,
            d >= 2,
    ;
    assert(q < i) by (nonlinear_arith)
        requires
            n == d * q,
            d >= i,
            i * i > n,
            i > 0,
            q >= 0,
    ;
    assert(n % q == 0) by (nonlinear_arith)
        requires
            n == d * q,
            q > 0,
    ;
}

/// Whether `n` is prime, by trial division with 2, 3 and the numbers
/// `6k - 1` and `6k + 1` up to the square root.
pub fn is_prime(n: i64) -> (r: bool)
    ensures
        r == prime(n as int),
{
    if n <= 1 {
        return false;
    }
    if n <= 3 {
        assert(forall|d: int| 2 <= d < n ==> #[trigger] ((n as int) % d) != 0);
        return true;
    }
    if n % 2 == 0 || n % 3 == 0 {
        assert((n as int) % 2 == 0 || (n as int) % 3 == 0);
        return false;
    }
    proof {
        if (n as int) % 4 == 0 {
            lemma_divisor_of_multiple(n as int, 2, 2);
        }
    }
    let mut i: i64 = 5;
    while i <= n / i
        invariant
            5 <= i,
            n > 3,
            i % 6 == 5,
            n % 2 != 0,
            n % 3 != 0,
            forall|d: int| 2 <= d < i ==> #[trigger] ((n as int) % d) != 0,
        decreases n - i,
    {
        if n % i == 0 || n % (i + 2) == 0 {
            assert(i + 2 < n) by (nonlinear_arith)
                requires
                    i <= n / i,
                    i >= 5,
                    n > 3,
            ;
            assert((n as int) % (i as int) == 0 || (n as int) % (i + 2) == 0);
            return false;
        }
        assert forall|d: int| 2 <= d < i + 6 implies #[trigger] ((n as int) % d) != 0 by {
            if d >= i && d != i && d != i + 2 {
                if d % 2 == 0 {
                    if (n as int) % d == 0 {
                        lemma_divisor_of_multiple(n as int, 2, d / 2);
                    }
                } else {
                    assert(d == i + 4);
                    assert(d % 3 == 0);
                    if (n as int) % d == 0 {
                        lemma_divisor_of_multiple(n as int, 3, d / 3);
                    }
                }
            }
        }
        assert(i + 6 <= n) by (nonlinear_arith)
            requires
                i <= n / i,
                i >= 5,
                n > 3,
        ;
        i = i + 6;
    }
    proof {
        assert(i * i > n) by (nonlinear_arith)
            requires
                i > n / i,
                i > 0,
                n > 0,
        ;
        assert forall|d: int| 2 <= d < n implies #[trigger] ((n as int) % d) != 0 by {
            if d >= i && (n as int) % d == 0 {
                lemma_cofactor(n as int, d, i as int);
                let q = (n as int) / d;
                assert((n as int) % q != 0);
            }
        }
    }
    true
}

/// Greatest common divisor of two naturals, by Euclid's algorithm.
pub open spec fn gcd_nat(a: nat, b: nat) -> nat
    decreases b,
{
    if b == 0 {
        a
    } else {
        gcd_nat(b, a % b)
    }
}

/// Greatest common divisor of `a` and `b`, never negative; 0 when both are 0.
pub fn gcd(a: i64, b: i64) -> (r: i64)
    requires
        a > i64::MIN,
        b > i64::MIN,
    ensures
        r == gcd_nat(abs_int(a as int) as nat, abs_int(b as int) as nat),
        r >= 0,
{
    let mut x: u64 = abs(a) as u64;
    let mut y: u64 = abs(b) as u64;
    while y != 0
        invariant
            x <= i64::MAX,
            y <= i64::MAX,
            gcd_nat(x as nat, y as nat) == gcd_nat(abs_int(a as int) as nat, abs_int(b as int) as nat),
        decreases y,
    {
        let t = y;
        y = x % y;
        x = t;
    }
    x as i64
}

/// Least common multiple, computed as `a / gcd(a, b) * b`; both arguments
/// zero have none, and the result must fit.
pub fn lcm(a: i64, b: i64) -> (r: i64)
    requires
        a > i64::MIN,
        b > i64::MIN,
        a != 0 || b != 0,
        i64::MIN <= (a as int / gcd_nat(abs_int(a as int) as nat, abs_int(b as int) as nat) as int) * b
            <= i64::MAX,
    ensures
        r == (a as int / gcd_nat(abs_int(a as int) as nat, abs_int(b as int) as nat) as int) * b,
{
    let g = gcd(a, b);
    let ghost ua = abs_int(a as int) as nat;
    let ghost ub = abs_int(b as int) as nat;
    proof {
        lemma_gcd_positive(ua, ub);
        lemma_gcd_divides(ua, ub);
    }
    let k = (abs(a) / g) as i64;
    let q = if a < 0 {
        -k
    } else {
        k
    };
    proof {
        let gi = g as int;
        assert(ua == gi * k) by (nonlinear_arith)
            requires
                (ua as int) % gi == 0,
                gi > 0,
                k == (ua as int) / gi,
        ;
        if a < 0 {
            assert((a as int) == gi * (-k)) by (nonlinear_arith)
                requires
                    ua == gi * k,
                    (a as int) == -(ua as int),
            ;
            assert((a as int) / gi == -k) by (nonlinear_arith)
                requires
                    (a as int) == gi * (-k),
                    gi > 0,
            ;
        } else {
            assert((a as int) / gi == k) by (nonlinear_arith)
                requires
                    (a as int) == gi * k,
                    gi > 0,
            ;
        }
    }
    q * b
}

proof fn lemma_gcd_divides(a: nat, b: nat)
    requires
        gcd_nat(a, b) > 0,
    ensures
        a % gcd_nat(a, b) == 0,
        b % gcd_nat(a, b) == 0,
    decreases b,
{
    let g = gcd_nat(a, b);
    if b != 0 {
        lemma_gcd_divides(b, a % b);
        let r = a % b;
        let q = a / b;
        let k1 = b / g;
        let k2 = r / g;
        assert(a == b * q + r) by (nonlinear_arith)
            requires
                b > 0,
                q == a / b,
                r == a % b,
        ;
        assert(b == g * k1 && r == g * k2) by (nonlinear_arith)
            requires
                g > 0,
                b % g == 0,
                r % g == 0,
                k1 == b / g,
                k2 == r / g,
        ;
        assert(a == g * (k1 * q + k2)) by (nonlinear_arith)
            requires
                a == b * q + r,
                b == g * k1,
                r == g * k2,
        ;
        assert(a % g == 0) by (nonlinear_arith)
            requires
                a == g * (k1 * q + k2),
                g > 0,
                k1 * q + k2 >= 0,
        ;
    } else {
        assert(a % a == 0) by (nonlinear_arith)
            requires
                a > 0,
        ;
    }
}

proof fn lemma_gcd_positive(a: nat, b: nat)
    requires
        a != 0 || b != 0,
    ensures
        gcd_nat(a, b) > 0,
    decreases b,
{
    if b != 0 {
        lemma_gcd_positive(b, a % b);
    }
}

} // verus!
