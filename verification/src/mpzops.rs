//! Trusted surface over the `gmp` crate's arbitrary-precision integers and
//! the `rand` crate's random source.  Every item here is believed, not
//! proved: each wrapper's contract states what the named gmp function is
//! documented (and shown by its source) to compute, expressed through the
//! uninterpreted value abstraction `mpz_val`.
use vstd::prelude::*;
use gmp::mpz::Mpz;
use gmp::mpz::ProbabPrimeResult;
use crate::numtheory::is_gcd;
use crate::numtheory::invertible;
use crate::numtheory::is_prime;
use vstd::arithmetic::power::pow;

verus! {

#[verifier::external_type_specification]
#[verifier::external_body]
pub struct ExMpz(Mpz);

/// The mathematical integer held by an `Mpz`.
pub uninterp spec fn mpz_val(z: Mpz) -> int;

/// The character for a single decimal digit.
pub open spec fn digit_char(d: nat) -> char {
    if d == 0 {
        '0'
    } else if d == 1 {
        '1'
    } else if d == 2 {
        '2'
    } else if d == 3 {
        '3'
    } else if d == 4 {
        '4'
    } else if d == 5 {
        '5'
    } else if d == 6 {
        '6'
    } else if d == 7 {
        '7'
    } else if d == 8 {
        '8'
    } else {
        '9'
    }
}

/// The decimal digits of a natural number, most significant first, with
/// no leading zeros (a lone zero for 0).
pub open spec fn decimal_digits(n: nat) -> Seq<char>
    decreases n,
{
    if n < 10 {
        seq![digit_char(n)]
    } else {
        decimal_digits(n / 10).push(digit_char(n % 10))
    }
}

/// The decimal rendering of an integer: a minus sign for negatives, then
/// the digits.  This is what `Mpz::to_str_radix` in base 10 produces.
pub open spec fn decimal_of(n: int) -> Seq<char> {
    if n < 0 {
        seq!['-'] + decimal_digits((-n) as nat)
    } else {
        decimal_digits(n as nat)
    }
}

/// Relies on gmp's `From<u64> for Mpz`: imports exactly that value.
#[verifier::external_body]
pub(crate) fn mpz_from_u64(x: u64) -> (r: Mpz)
    ensures
        mpz_val(r) == x as int,
{
    Mpz::from(x)
}

/// Relies on gmp's `From<i64> for Mpz`: imports exactly that value.
#[verifier::external_body]
pub(crate) fn mpz_from_i64(x: i64) -> (r: Mpz)
    ensures
        mpz_val(r) == x as int,
{
    Mpz::from(x)
}

/// Relies on gmp's `Mul for &Mpz` (`__gmpz_mul`).
#[verifier::external_body]
pub(crate) fn mpz_mul(a: &Mpz, b: &Mpz) -> (r: Mpz)
    ensures
        mpz_val(r) == mpz_val(*a) * mpz_val(*b),
{
    a * b
}

/// Relies on gmp's `Add for &Mpz` (`__gmpz_add`).
#[verifier::external_body]
pub(crate) fn mpz_add(a: &Mpz, b: &Mpz) -> (r: Mpz)
    ensures
        mpz_val(r) == mpz_val(*a) + mpz_val(*b),
{
    a + b
}

/// Relies on `Mpz::modulus` (`__gmpz_mod`): the non-negative residue,
/// which for a positive modulus agrees with mathematical `%`.
#[verifier::external_body]
pub(crate) fn mpz_mod(a: &Mpz, m: &Mpz) -> (r: Mpz)
    requires
        mpz_val(*m) > 0,
    ensures
        mpz_val(r) == mpz_val(*a) % mpz_val(*m),
{
    a.modulus(m)
}

/// Relies on `Mpz::div_floor` (`__gmpz_fdiv_q`): floor division, which for
/// a positive divisor agrees with mathematical `/`.
#[verifier::external_body]
pub(crate) fn mpz_div_floor(a: &Mpz, b: &Mpz) -> (r: Mpz)
    requires
        mpz_val(*b) > 0,
    ensures
        mpz_val(r) == mpz_val(*a) / mpz_val(*b),
{
    a.div_floor(b)
}

/// Relies on `Mpz::gcd` (`__gmpz_gcd`): the greatest common divisor,
/// always non-negative, and positive unless both arguments are zero.
#[verifier::external_body]
pub(crate) fn mpz_gcd(a: &Mpz, b: &Mpz) -> (r: Mpz)
    requires
        mpz_val(*a) != 0 || mpz_val(*b) != 0,
    ensures
        is_gcd(mpz_val(r), mpz_val(*a), mpz_val(*b)),
{
    a.gcd(b)
}

/// Relies on `Mpz::invert` (`__gmpz_invert`): `Some` exactly when an
/// inverse modulo `m` exists, and then the canonical one in `[0, m)`.
#[verifier::external_body]
pub(crate) fn mpz_invert(a: &Mpz, m: &Mpz) -> (r: Option<Mpz>)
    requires
        mpz_val(*m) > 1,
    ensures
        r is Some <==> invertible(mpz_val(*a), mpz_val(*m)),
        r is Some ==> 0 <= mpz_val(r->0) < mpz_val(*m) && (mpz_val(*a) * mpz_val(r->0)) % mpz_val(
            *m,
        ) == 1,
{
    a.invert(m)
}

/// Relies on `Mpz::powm` (`__gmpz_powm`) with a non-negative exponent:
/// modular exponentiation, result in `[0, m)`.
#[verifier::external_body]
pub(crate) fn mpz_powm(b: &Mpz, e: &Mpz, m: &Mpz) -> (r: Mpz)
    requires
        mpz_val(*e) >= 0,
        mpz_val(*m) > 0,
    ensures
        mpz_val(r) == pow(mpz_val(*b), mpz_val(*e) as nat) % mpz_val(*m),
{
    b.powm(e, m)
}

/// Relies on gmp's `PartialEq for Mpz` (`__gmpz_cmp`): value equality.
#[verifier::external_body]
pub(crate) fn mpz_eq(a: &Mpz, b: &Mpz) -> (r: bool)
    ensures
        r <==> mpz_val(*a) == mpz_val(*b),
{
    a == b
}

/// Relies on gmp's `Ord for Mpz` (`__gmpz_cmp`): value ordering.
#[verifier::external_body]
pub(crate) fn mpz_lt(a: &Mpz, b: &Mpz) -> (r: bool)
    ensures
        r <==> mpz_val(*a) < mpz_val(*b),
{
    a < b
}

/// Relies on `Mpz::probab_prime` (`__gmpz_probab_prime_p`): `NotPrime`
/// means definitely composite (or below 2); otherwise the value passed
/// `reps` Miller-Rabin rounds, which this scheme's trust model treats as
/// establishing primality (error probability below `4^-reps`).
#[verifier::external_body]
pub(crate) fn mpz_is_probab_prime(z: &Mpz, reps: i32) -> (r: bool)
    requires
        mpz_val(*z) >= 0,
        reps >= 15,
    ensures
        r <==> is_prime(mpz_val(*z)),
{
    match z.probab_prime(reps) {
        ProbabPrimeResult::NotPrime => false,
        ProbabPrimeResult::ProbablyPrime => true,
        ProbabPrimeResult::Prime => true,
    }
}

/// Relies on `Mpz::nextprime` (`__gmpz_nextprime`): the next prime above
/// the argument, found with the same probabilistic test.
#[verifier::external_body]
pub(crate) fn mpz_nextprime(z: &Mpz) -> (r: Mpz)
    ensures
        is_prime(mpz_val(r)),
        mpz_val(r) > mpz_val(*z),
{
    z.nextprime()
}

/// Relies on `Mpz::to_str_radix` in base 10: the decimal rendering, a
/// pure function of the value.
#[verifier::external_body]
pub(crate) fn mpz_to_decimal(z: &Mpz) -> (r: String)
    ensures
        r@ == decimal_of(mpz_val(*z)),
{
    z.to_str_radix(10)
}

/// Relies on `rand::random` over `u64`: a fresh value from the thread-local
/// CSPRNG.  Nothing can be promised of it.
pub assume_specification<T>[ rand::random::<T> ]() -> (r: T)
    where rand::distributions::Standard: rand::distributions::Distribution<T>,
;

} // verus!
