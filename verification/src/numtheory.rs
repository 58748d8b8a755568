//! Spec-level number theory: divisibility, greatest common divisors,
//! modular inverses and primality, with the uniqueness lemmas that let
//! executable code pin results of arbitrary-precision arithmetic to
//! these mathematical definitions.
use vstd::prelude::*;
use vstd::arithmetic::div_mod::lemma_mul_mod_noop_right;
use vstd::arithmetic::div_mod::lemma_mul_mod_noop_left;
use vstd::arithmetic::mul::lemma_mul_is_associative;

verus! {

/// `d` divides `a`.
pub open spec fn divides(d: int, a: int) -> bool {
    exists|k: int| a == #[trigger] (k * d)
}

/// `g` is the greatest common divisor of `a` and `b`: positive, a common
/// divisor, and divisible by every common divisor.
pub open spec fn is_gcd(g: int, a: int, b: int) -> bool {
    &&& g > 0
    &&& divides(g, a)
    &&& divides(g, b)
    &&& forall|d: int| d > 0 && divides(d, a) && divides(d, b) ==> divides(d, g)
}

/// The greatest common divisor of `a` and `b`, as a value (meaningful
/// whenever some `g` satisfies `is_gcd`, which holds unless both are zero).
pub open spec fn gcd_of(a: int, b: int) -> int {
    choose|g: int| is_gcd(g, a, b)
}

/// `a` has a multiplicative inverse modulo `m`.
pub open spec fn invertible(a: int, m: int) -> bool {
    exists|x: int| 0 <= x < m && #[trigger] ((a * x) % m) == 1
}

/// The canonical inverse of `a` modulo `m`, in `[0, m)`.
pub open spec fn inv_mod(a: int, m: int) -> int {
    choose|x: int| 0 <= x < m && #[trigger] ((a * x) % m) == 1
}

/// `n` is prime.
pub open spec fn is_prime(n: int) -> bool {
    n >= 2 && forall|d: int| 2 <= d < n ==> !divides(d, n)
}

/// Any two values satisfying `is_gcd` for the same pair coincide, so
/// `gcd_of` is pinned by any `is_gcd` witness.
pub proof fn lemma_gcd_of_is(g: int, a: int, b: int)
    requires
        is_gcd(g, a, b),
    ensures
        gcd_of(a, b) == g,
{
    let g2 = gcd_of(a, b);
    assert(is_gcd(g2, a, b));
    // each divides the other
    assert(divides(g, g2));
    assert(divides(g2, g));
    let k = choose|k: int| g2 == #[trigger] (k * g);
    let l = choose|l: int| g == #[trigger] (l * g2);
    assert(g == l * (k * g));
    assert(g * 1 == g * (l * k)) by {
        lemma_mul_is_associative(l, k, g);
        assert(l * (k * g) == (l * k) * g);
        assert(g * (l * k) == (l * k) * g);
        assert(g * 1 == g);
    }
    assert(l * k == 1) by (nonlinear_arith)
        requires
            g * 1 == g * (l * k),
            g > 0,
    ;
    assert(k == 1) by (nonlinear_arith)
        requires
            l * k == 1,
            g2 == k * g,
            g > 0,
            g2 > 0,
    ;
}

/// The modular inverse in `[0, m)` is unique, so `inv_mod` is pinned by
/// any witness.
pub proof fn lemma_inv_mod_is(a: int, m: int, x: int)
    requires
        m > 0,
        0 <= x < m,
        (a * x) % m == 1,
    ensures
        inv_mod(a, m) == x,
        invertible(a, m),
{
    assert(invertible(a, m));
    let y = inv_mod(a, m);
    assert(0 <= y < m && (a * y) % m == 1);
    // x == x * (a*y) % m == (x*a)*y % m == y, and symmetrically
    assert((x * (a * y)) % m == (x * 1) % m) by {
        lemma_mul_mod_noop_right(x, a * y, m);
    }
    assert(x % m == x) by {
        assert(x == m * (x / m) + x % m) by {
            vstd::arithmetic::div_mod::lemma_fundamental_div_mod(x, m);
        }
        assert(0 <= x % m < m);
        assert(x / m == 0) by (nonlinear_arith)
            requires
                m > 0,
                0 <= x < m,
                x == m * (x / m) + x % m,
                0 <= x % m < m,
        ;
    }
    assert((x * 1) % m == x);
    assert(y % m == y) by {
        assert(y == m * (y / m) + y % m) by {
            vstd::arithmetic::div_mod::lemma_fundamental_div_mod(y, m);
        }
        assert(y / m == 0) by (nonlinear_arith)
            requires
                m > 0,
                0 <= y < m,
                y == m * (y / m) + y % m,
                0 <= y % m < m,
        ;
    }
    assert((x * (a * y)) % m == ((x * a) * y) % m) by {
        lemma_mul_is_associative(x, a, y);
    }
    assert(((x * a) * y) % m == (1 * y) % m) by {
        vstd::arithmetic::mul::lemma_mul_is_commutative(x, a);
        lemma_mul_mod_noop_left(x * a, y, m);
        lemma_mul_mod_noop_left(a * x, y, m);
    }
    assert((1 * y) % m == y);
}

} // verus!
