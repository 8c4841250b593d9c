//! Greatest common divisors, fraction reduction, primality and divisor counts.

use vstd::arithmetic::div_mod::{
    lemma_fundamental_div_mod, lemma_fundamental_div_mod_converse, lemma_mod_multiples_basic, lemma_small_mod,
};
use vstd::prelude::*;

verus! {

/// Greatest common divisor by Euclid's recursion.
pub open spec fn gcd_spec(a: nat, b: nat) -> nat
    decreases b,
{
    if b == 0 {
        a
    } else {
        gcd_spec(b, a % b)
    }
}

/// A common divisor of `x` and `y` divides every integer combination of them.
pub proof fn lemma_divides_combination(x: int, y: int, s: int, t: int, g: int)
    requires
        g > 0,
        x % g == 0,
        y % g == 0,
    ensures
        (s * x + t * y) % g == 0,
{
    lemma_fundamental_div_mod(x, g);
    lemma_fundamental_div_mod(y, g);
    let k = s * (x / g) + t * (y / g);
    assert(s * x + t * y == k * g) by (nonlinear_arith)
        requires
            x == g * (x / g),
            y == g * (y / g),
            k == s * (x / g) + t * (y / g),
    ;
    lemma_mod_multiples_basic(k, g);
}

/// The gcd of two naturals, not both zero, is positive and divides both.
pub proof fn lemma_gcd_divides(a: nat, b: nat)
    requires
        a > 0 || b > 0,
    ensures
        gcd_spec(a, b) > 0,
        (a as int) % (gcd_spec(a, b) as int) == 0,
        (b as int) % (gcd_spec(a, b) as int) == 0,
    decreases b,
{
    if b == 0 {
        assert((a as int) % (a as int) == 0) by {
            lemma_mod_multiples_basic(1, a as int);
        }
    } else {
        let r = a % b;
        lemma_gcd_divides(b, r);
        let g = gcd_spec(a, b) as int;
        lemma_fundamental_div_mod(a as int, b as int);
        assert(a as int == (a / b) as int * (b as int) + 1 * (r as int)) by (nonlinear_arith)
            requires
                a as int == (b as int) * ((a as int) / (b as int)) + (a as int) % (b as int),
                r == a % b,
        ;
        lemma_divides_combination(b as int, r as int, (a / b) as int, 1, g);
    }
}

/// Greatest common divisor of two positive integers, by Euclid's algorithm.
pub fn gcd(num1: i32, num2: i32) -> (r: i32)
    requires
        num1 >= 1,
        num2 >= 1,
    ensures
        r as nat == gcd_spec(num1 as nat, num2 as nat),
        r >= 1,
{
    let mut a: i32 = num1;
    let mut b: i32 = num2;
    if b > a {
        a = num2;
        b = num1;
        assert(gcd_spec(num1 as nat, num2 as nat) == gcd_spec(num2 as nat, num1 as nat)) by {
            lemma_small_mod(num1 as nat, num2 as nat);
        }
    }
    loop
        invariant
            a >= 1,
            b >= 1,
            num1 >= 1,
            num2 >= 1,
            gcd_spec(a as nat, b as nat) == gcd_spec(num1 as nat, num2 as nat),
        decreases b,
    {
        let remainder = a % b;
        assert(gcd_spec(a as nat, b as nat) == gcd_spec(b as nat, remainder as nat));
        if remainder == 0 {
            return b;
        }
        a = b;
        b = remainder;
    }
}

/// Scaling both arguments scales the gcd.
pub proof fn lemma_gcd_scale(a: nat, b: nat, k: nat)
    requires
        k > 0,
    ensures
        gcd_spec(k * a, k * b) == k * gcd_spec(a, b),
    decreases b,
{
    if b == 0 {
        assert(k * b == 0);
    } else {
        let r = a % b;
        lemma_fundamental_div_mod(a as int, b as int);
        assert(k * b > 0) by (nonlinear_arith)
            requires
                k > 0,
                b > 0,
        ;
        assert((k * a) as int == ((a / b) as int) * ((k * b) as int) + (k * r) as int
            && (k * r) < k * b) by (nonlinear_arith)
            requires
                a as int == (b as int) * ((a as int) / (b as int)) + (a as int) % (b as int),
                r == a % b,
                r < b,
                k > 0,
        ;
        lemma_fundamental_div_mod_converse(
            (k * a) as int,
            (k * b) as int,
            (a / b) as int,
            (k * r) as int,
        );
        lemma_gcd_scale(b, r, k);
    }
}

/// Two naturals with an integer combination equal to one have gcd one.
pub proof fn lemma_coprime_of_combination(x: nat, y: nat, s: int, t: int)
    requires
        x > 0 || y > 0,
        s * x + t * y == 1,
    ensures
        gcd_spec(x, y) == 1,
{
    lemma_gcd_divides(x, y);
    let g = gcd_spec(x, y) as int;
    lemma_divides_combination(x as int, y as int, s, t, g);
    if g > 1 {
        lemma_small_mod(1, g as nat);
    }
}

/// The fraction `num / den` in lowest terms, with zero written `0 / 1`.
pub open spec fn reduced(num: int, den: int) -> (int, int) {
    if num == 0 {
        (0, 1)
    } else {
        let g = gcd_spec(num as nat, den as nat) as int;
        (num / g, den / g)
    }
}

/// `num / den` is in lowest terms: a positive denominator sharing no factor
/// with the numerator (so zero is only `0 / 1`).
pub open spec fn in_lowest_terms(num: int, den: int) -> bool {
    &&& num >= 0
    &&& den >= 1
    &&& gcd_spec(num as nat, den as nat) == 1
}

/// Dividing a positive fraction by the gcd of its parts leaves it in lowest
/// terms.
pub proof fn lemma_reduced_is_lowest(num: int, den: int)
    requires
        num >= 0,
        den >= 1,
    ensures
        in_lowest_terms(reduced(num, den).0, reduced(num, den).1),
        reduced(num, den).0 * den == num * reduced(num, den).1,
{
    if num == 0 {
        assert(gcd_spec(0, 1) == gcd_spec(1, 0));
    } else {
        let g = gcd_spec(num as nat, den as nat);
        lemma_gcd_divides(num as nat, den as nat);
        lemma_fundamental_div_mod(num, g as int);
        lemma_fundamental_div_mod(den, g as int);
        let a = num / (g as int);
        let b = den / (g as int);
        assert(a >= 1 && b >= 1) by (nonlinear_arith)
            requires
                num == (g as int) * a,
                den == (g as int) * b,
                num >= 1,
                den >= 1,
                g > 0,
        ;
        lemma_gcd_scale(a as nat, b as nat, g);
        assert(g * (a as nat) == num && g * (b as nat) == den);
        assert(g * gcd_spec(a as nat, b as nat) == g * 1);
        assert(gcd_spec(a as nat, b as nat) == 1) by (nonlinear_arith)
            requires
                g * gcd_spec(a as nat, b as nat) == g * 1,
                g > 0,
        ;
        assert(a * den == num * b) by (nonlinear_arith)
            requires
                num == (g as int) * a,
                den == (g as int) * b,
        ;
    }
}

/// A fraction already in lowest terms is its own reduction.
pub proof fn lemma_reduced_of_lowest(num: int, den: int)
    requires
        in_lowest_terms(num, den),
    ensures
        reduced(num, den) == (num, den),
{
    if num == 0 {
        assert(gcd_spec(0, den as nat) == gcd_spec(den as nat, 0));
    }
}

/// Reducing is idempotent: reducing an already reduced fraction gives it back.
pub proof fn lemma_reduce_idempotent(num: int, den: int)
    requires
        num >= 0,
        den >= 1,
    ensures
        reduced(reduced(num, den).0, reduced(num, den).1) == reduced(num, den),
{
    lemma_reduced_is_lowest(num, den);
    lemma_reduced_of_lowest(reduced(num, den).0, reduced(num, den).1);
}

/// Brings `frac` to lowest terms by dividing out the gcd until it is one.
pub fn reduce_fraction(frac: (i32, i32)) -> (r: (i32, i32))
    requires
        frac.0 >= 0,
        frac.1 >= 1,
    ensures
        (r.0 as int, r.1 as int) == reduced(frac.0 as int, frac.1 as int),
        in_lowest_terms(r.0 as int, r.1 as int),
{
    let mut fraction = frac;
    if fraction.0 == 0 {
        proof {
            lemma_reduced_is_lowest(0, 1);
        }
        return (0, 1);
    }
    proof {
        lemma_reduced_is_lowest(frac.0 as int, frac.1 as int);
        lemma_reduced_of_lowest(
            reduced(frac.0 as int, frac.1 as int).0,
            reduced(frac.0 as int, frac.1 as int).1,
        );
    }
    loop
        invariant
            frac.0 >= 1,
            frac.1 >= 1,
            fraction.0 >= 1,
            fraction.1 >= 1,
            (fraction.0 as int, fraction.1 as int) == (frac.0 as int, frac.1 as int)
                || (fraction.0 as int, fraction.1 as int) == reduced(frac.0 as int, frac.1 as int),
            in_lowest_terms(
                reduced(frac.0 as int, frac.1 as int).0,
                reduced(frac.0 as int, frac.1 as int).1,
            ),
            reduced(reduced(frac.0 as int, frac.1 as int).0, reduced(frac.0 as int, frac.1 as int).1)
                == reduced(frac.0 as int, frac.1 as int),
        decreases fraction.0,
    {
        let gcd_value = gcd(fraction.0, fraction.1);
        if gcd_value == 1 {
            proof {
                if (fraction.0 as int, fraction.1 as int) == (frac.0 as int, frac.1 as int) {
                    lemma_reduced_of_lowest(frac.0 as int, frac.1 as int);
                }
            }
            return fraction;
        }
        proof {
            lemma_gcd_divides(fraction.0 as nat, fraction.1 as nat);
            lemma_reduced_is_lowest(fraction.0 as int, fraction.1 as int);
            lemma_fundamental_div_mod(fraction.0 as int, gcd_value as int);
            lemma_fundamental_div_mod(fraction.1 as int, gcd_value as int);
            assert(1 <= fraction.0 / gcd_value < fraction.0) by (nonlinear_arith)
                requires
                    gcd_value >= 2,
                    fraction.0 >= 1,
                    fraction.0 as int == (gcd_value as int) * (fraction.0 as int / gcd_value as int),
            ;
            assert(fraction.1 / gcd_value >= 1) by (nonlinear_arith)
                requires
                    gcd_value >= 2,
                    fraction.1 >= 1,
                    fraction.1 as int == (gcd_value as int) * (fraction.1 as int / gcd_value as int),
            ;
        }
        fraction = (fraction.0 / gcd_value, fraction.1 / gcd_value);
    }
}

/// `n` is prime: at least two, with no divisor strictly between one and itself.
pub open spec fn is_prime_number(n: nat) -> bool {
    &&& n >= 2
    &&& forall|d: nat| 2 <= d < n ==> #[trigger] (n % d) != 0
}

/// Relies on `primal::is_prime`, a deterministic Miller-Rabin test over the
/// whole `u64` range: it returns true exactly for primes.
#[verifier::external_body]
pub(crate) fn is_prime(n: u64) -> (r: bool)
    ensures
        r == is_prime_number(n as nat),
{
    primal::is_prime(n)
}

/// Integer square root, rounded down.
pub open spec fn isqrt_spec(t: nat) -> nat
    decreases t,
{
    if t == 0 {
        0
    } else {
        let r = isqrt_spec((t - 1) as nat);
        if (r + 1) * (r + 1) <= t {
            r + 1
        } else {
            r
        }
    }
}

pub proof fn lemma_isqrt_bounds(t: nat)
    ensures
        isqrt_spec(t) * isqrt_spec(t) <= t < (isqrt_spec(t) + 1) * (isqrt_spec(t) + 1),
    decreases t,
{
    if t > 0 {
        lemma_isqrt_bounds((t - 1) as nat);
        let r = isqrt_spec((t - 1) as nat);
        let s = isqrt_spec(t);
        if (r + 1) * (r + 1) <= t {
            assert(s == r + 1);
            assert(s * s <= t < (s + 1) * (s + 1)) by (nonlinear_arith)
                requires
                    t - 1 < (r + 1) * (r + 1),
                    (r + 1) * (r + 1) <= t,
                    s == r + 1,
            ;
        } else {
            assert(s == r);
        }
    } else {
        assert(isqrt_spec(0) == 0);
        assert(0 * 0 <= 0nat < (0 + 1) * (0 + 1)) by (nonlinear_arith);
    }
}

pub proof fn lemma_isqrt_unique(t: nat, m: nat)
    requires
        m * m <= t < (m + 1) * (m + 1),
    ensures
        isqrt_spec(t) == m,
{
    lemma_isqrt_bounds(t);
    let r = isqrt_spec(t);
    if r < m {
        assert((r + 1) * (r + 1) <= m * m) by (nonlinear_arith)
            requires
                r + 1 <= m,
        ;
    } else if r > m {
        assert((m + 1) * (m + 1) <= r * r) by (nonlinear_arith)
            requires
                m + 1 <= r,
        ;
    }
}

/// The square root of `n` rounded down, by bisection.
pub fn isqrt(n: u32) -> (r: u32)
    ensures
        r == isqrt_spec(n as nat),
        r * r <= n,
        n < (r + 1) * (r + 1),
{
    // Invariant: lo * lo <= n < hi * hi.
    let mut lo: u64 = 0;
    let mut hi: u64 = 65536;
    let target = n as u64;
    assert(hi * hi > u32::MAX) by (nonlinear_arith)
        requires
            hi == 65536,
    ;
    while hi - lo > 1
        invariant
            lo < hi <= 65536,
            lo * lo <= target,
            target < hi * hi,
            target == n,
        decreases hi - lo,
    {
        let mid = lo + (hi - lo) / 2;
        assert(mid * mid <= 65536 * 65536) by (nonlinear_arith)
            requires
                mid <= 65536,
        ;
        if mid * mid <= target {
            lo = mid;
        } else {
            hi = mid;
        }
    }
    assert(hi == lo + 1);
    proof {
        lemma_isqrt_unique(n as nat, lo as nat);
    }
    lo as u32
}

/// The number of `d` in `2..=upto` that divide `num`.
pub open spec fn divisors_from_two(num: nat, upto: nat) -> nat
    decreases upto,
{
    if upto < 2 {
        0
    } else {
        divisors_from_two(num, (upto - 1) as nat) + if num % upto == 0 {
            1nat
        } else {
            0nat
        }
    }
}

proof fn lemma_divisors_from_two_bound(num: nat, upto: nat)
    ensures
        divisors_from_two(num, upto) + 1 <= if upto < 1 {
            1
        } else {
            upto
        },
    decreases upto,
{
    if upto >= 2 {
        lemma_divisors_from_two_bound(num, (upto - 1) as nat);
    }
}

/// One more than the number of divisors of `num` in `2..=search_num`; with
/// `search_num` the square root of `num` this counts the divisors up to it.
pub fn get_factor_num(num: u32, search_num: u32) -> (r: u32)
    ensures
        r == 1 + divisors_from_two(num as nat, search_num as nat),
{
    let mut count: u32 = 1;
    let mut x: u64 = 2;
    while x <= search_num as u64
        invariant
            2 <= x <= search_num as u64 + 1 || (x == 2 && search_num < 2),
            count == 1 + divisors_from_two(num as nat, (x - 1) as nat),
        decreases search_num as u64 + 1 - x,
    {
        proof {
            lemma_divisors_from_two_bound(num as nat, x as nat);
        }
        if num % (x as u32) == 0 {
            count = count + 1;
        }
        x = x + 1;
    }
    proof {
        if search_num < 2 {
            assert(divisors_from_two(num as nat, search_num as nat) == 0);
        }
    }
    count
}

} // verus!
