//! Primality testing and related number theory: trial division over two
//! integer types, the next prime above a bound, and coprimality by the
//! Euclidean algorithm.

use vstd::arithmetic::div_mod::{lemma_fundamental_div_mod, lemma_fundamental_div_mod_converse};
use vstd::prelude::*;

verus! {

/// `n` is prime: at least 2, and no smaller value above 1 divides it.
pub open spec fn spec_prime(n: int) -> bool {
    n >= 2 && forall|d: int| 2 <= d < n ==> #[trigger] (n % d) != 0
}

/// Whether `value` is prime, by trial division up to half the value.
pub fn is_prime(value: i32) -> (r: bool)
    ensures
        r == spec_prime(value as int),
{
    if value < 2 {
        return false;
    }
    if value != 2 && value % 2 == 0 {
        proof {
            assert(value as int % 2int == 0);
        }
        return false;
    }
    let half = value / 2;
    let mut d: i32 = 2;
    while d < half
        invariant
            2 <= d,
            value >= 2,
            half == value as int / 2,
            forall|e: int| 2 <= e < d ==> #[trigger] ((value as int) % e) != 0,
        decreases half - d,
    {
        if value % d == 0 {
            proof {
                assert((value as int) % (d as int) == 0);
                assert(2 <= d < value);
            }
            return false;
        }
        d += 1;
    }
    proof {
        lemma_no_divisor_above_half(value as int, half as int);
    }
    true
}

/// An integer above 1, odd or equal to 2, with no divisor below half of it,
/// has no divisor at all: it is prime.
proof fn lemma_no_divisor_above_half(v: int, half: int)
    requires
        v >= 2,
        v == 2 || v % 2 != 0,
        half == v / 2,
        forall|e: int| 2 <= e < half ==> #[trigger] (v % e) != 0,
    ensures
        spec_prime(v),
{
    lemma_fundamental_div_mod(v, 2);
    assert forall|e: int| 2 <= e < v implies #[trigger] (v % e) != 0 by {
        if e >= half && v % e == 0 {
            lemma_fundamental_div_mod(v, e);
            let q = v / e;
            assert(v == e * q);
            assert(q >= 2) by (nonlinear_arith)
                requires
                    v == e * q,
                    2 <= e < v,
                    v >= 2,
            ;
            if v == 2 {
                assert(false);
            } else {
                assert(v == 2 * half + 1);
                assert(false) by (nonlinear_arith)
                    requires
                        v == e * q,
                        q >= 2,
                        e >= 2,
                        e >= half,
                        v == 2 * half + 1,
                        v >= 3,
                ;
            }
        }
    }
}

/// An integer above 1, not an even number above 2, with no odd divisor whose
/// square is within it, is prime.
proof fn lemma_no_small_odd_divisor(v: int, bound: int)
    requires
        v >= 2,
        v == 2 || v % 2 != 0,
        bound >= 0,
        bound * bound > v,
        forall|e: int| 3 <= e < bound && e % 2 == 1 ==> #[trigger] (v % e) != 0,
    ensures
        spec_prime(v),
{
    assert forall|e: int| 2 <= e < v implies #[trigger] (v % e) != 0 by {
        if v % e == 0 {
            lemma_fundamental_div_mod(v, e);
            let q = v / e;
            assert(v == e * q);
            assert(q >= 2) by (nonlinear_arith)
                requires
                    v == e * q,
                    2 <= e < v,
                    v >= 2,
            ;
            if v == 2 {
                assert(false);
            } else {
                // the smaller cofactor's square is within v
                let s = if e <= q {
                    e
                } else {
                    q
                };
                assert(s * s <= v && 2 <= s) by (nonlinear_arith)
                    requires
                        v == e * q,
                        q >= 2,
                        e >= 2,
                        s == if e <= q {
                            e
                        } else {
                            q
                        },
                ;
                // an even factor would make v even
                let other = if e <= q {
                    q
                } else {
                    e
                };
                assert(v == other * s) by (nonlinear_arith)
                    requires
                        v == e * q,
                        s == if e <= q {
                            e
                        } else {
                            q
                        },
                        other == if e <= q {
                            q
                        } else {
                            e
                        },
                ;
                if s % 2 == 0 {
                    lemma_fundamental_div_mod(s, 2);
                    let k = s / 2;
                    assert(v == 2 * (other * k)) by (nonlinear_arith)
                        requires
                            v == other * s,
                            s == 2 * k,
                    ;
                    lemma_fundamental_div_mod_converse(v, 2, other * k, 0);
                    assert(false);
                }
                assert(s < bound) by (nonlinear_arith)
                    requires
                        s * s <= v,
                        bound * bound > v,
                        s >= 2,
                        bound >= 0,
                ;
                // s divides v, contradicting the hypothesis
                lemma_fundamental_div_mod_converse(v, s, other, 0);
                assert(v % s == 0);
                assert(false);
            }
        }
    }
}

/// Whether `x` is prime, by trial division over odd candidates up to the
/// square root.
pub fn prime(x: u16) -> (r: bool)
    ensures
        r == spec_prime(x as int),
{
    if x < 2 {
        return false;
    }
    if x != 2 && x % 2 == 0 {
        proof {
            assert(x as int % 2int == 0);
        }
        return false;
    }
    let mut d: u32 = 3;
    while d <= 255 && (x as u32) / d >= d
        invariant
            3 <= d <= 257,
            d % 2 == 1,
            x >= 2,
            forall|e: int| 3 <= e < d && e % 2 == 1 ==> #[trigger] ((x as int) % e) != 0,
        decreases x + 2 - d,
    {
        proof {
            lemma_fundamental_div_mod(x as int, d as int);
            assert(d * d <= x) by (nonlinear_arith)
                requires
                    x as int == (d as int) * ((x as int) / (d as int)) + (x as int) % (d as int),
                    (x as int) / (d as int) >= d,
                    (x as int) % (d as int) >= 0,
                    d >= 3,
            ;
        }
        if (x as u32) % d == 0 {
            proof {
                assert((x as int) % (d as int) == 0);
                assert(3 <= d < x) by (nonlinear_arith)
                    requires
                        d * d <= x,
                        d >= 3,
                ;
            }
            return false;
        }
        proof {
            assert(d <= 255) by (nonlinear_arith)
                requires
                    d * d <= x,
                    x <= 65535,
                    d >= 3,
            ;
            assert(d <= x) by (nonlinear_arith)
                requires
                    d * d <= x,
                    d >= 3,
            ;
        }
        d += 2;
    }
    proof {
        if d > 255 {
            assert(d * d > x) by (nonlinear_arith)
                requires
                    d > 255,
                    x <= 65535,
            ;
        } else {
            lemma_fundamental_div_mod(x as int, d as int);
            assert(d * d > x) by (nonlinear_arith)
                requires
                    x as int == (d as int) * ((x as int) / (d as int)) + (x as int) % (d as int),
                    (x as int) / (d as int) < d,
                    (x as int) % (d as int) < d,
                    d >= 3,
            ;
        }
        lemma_no_small_odd_divisor(x as int, d as int);
    }
    true
}

/// The smallest prime above `x`, or nothing when no prime fits in u16 above
/// it.
pub fn next_prime(x: u16) -> (r: Option<u16>)
    requires
        x < u16::MAX,
    ensures
        r matches Some(p) ==> spec_prime(p as int) && p > x && forall|q: int|
            x < q < p ==> !spec_prime(q),
        r is None ==> forall|q: int| x < q <= u16::MAX ==> !spec_prime(q),
{
    let mut y = x;
    while y < u16::MAX
        invariant
            x <= y <= u16::MAX,
            forall|q: int| x < q <= y ==> !spec_prime(q),
        decreases u16::MAX - y,
    {
        y += 1;
        if prime(y) {
            return Some(y);
        }
    }
    None
}

/// The greatest common divisor, by the Euclidean algorithm.
pub open spec fn spec_gcd(a: nat, b: nat) -> nat
    decreases b,
{
    if b == 0 {
        a
    } else {
        spec_gcd(b, a % b)
    }
}

/// Whether `a` and `b` are coprime. Stated for non-negative inputs: the
/// result is then exactly whether their greatest common divisor is 1.
/// Negative inputs (except the minimum value, whose remainder can overflow)
/// are accepted and run the same algorithm on signed remainders.
pub fn is_coprime(a: i32, b: i32) -> (r: bool)
    requires
        a > i32::MIN,
        b > i32::MIN,
    ensures
        a >= 0 && b >= 0 ==> r == (spec_gcd(a as nat, b as nat) == 1),
{
    let ghost a0 = a;
    let ghost b0 = b;
    let mut x = a;
    let mut y = b;
    while y != 0
        invariant
            x > i32::MIN,
            y > i32::MIN,
            a0 >= 0 && b0 >= 0 ==> x >= 0 && y >= 0 && spec_gcd(x as nat, y as nat) == spec_gcd(
                a0 as nat,
                b0 as nat,
            ),
        decreases
                (if y >= 0 {
                    y as int
                } else {
                    -(y as int)
                }),
    {
        let r: i32 = x % y;
        x = y;
        y = r;
    }
    x == 1
}

} // verus!
