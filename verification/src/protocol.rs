//! The wildcard obfuscation scheme: construction of the public encoding
//! matrix from a secret pattern, and evaluation of candidate inputs
//! against it.
use vstd::prelude::*;
use vstd::arithmetic::power::pow;
use vstd::arithmetic::power::lemma_pow_positive;
use vstd::arithmetic::mul::lemma_mul_nonnegative;
use vstd::arithmetic::div_mod::lemma_mod_multiples_basic;
use gmp::mpz::Mpz;
use crate::mpzops::mpz_val;
use crate::mpzops::decimal_of;
use crate::mpzops::mpz_from_u64;
use crate::mpzops::mpz_from_i64;
use crate::mpzops::mpz_mul;
use crate::mpzops::mpz_add;
use crate::mpzops::mpz_mod;
use crate::mpzops::mpz_div_floor;
use crate::mpzops::mpz_gcd;
use crate::mpzops::mpz_invert;
use crate::mpzops::mpz_powm;
use crate::mpzops::mpz_eq;
use crate::mpzops::mpz_lt;
use crate::mpzops::mpz_is_probab_prime;
use crate::mpzops::mpz_nextprime;
use crate::mpzops::mpz_to_decimal;
use crate::numtheory::is_gcd;
use crate::numtheory::gcd_of;
use crate::numtheory::invertible;
use crate::numtheory::inv_mod;
use crate::numtheory::is_prime;
use crate::numtheory::lemma_gcd_of_is;
use crate::numtheory::lemma_inv_mod_is;
use vstd::string::StrSliceExecFns;

verus! {

/// Largest pattern length the library accepts; keeps every point value and
/// intermediate index computation comfortably inside fixed-width machine
/// arithmetic.
pub open spec fn max_pattern_len() -> int {
    0x1000_0000
}

/// The evaluation abscissa attached to position `i` and bit `j`.
pub open spec fn point_spec(i: int, j: int) -> int {
    2 * (i + 1) + j
}

/// point(i,j) = 2*(i+1)+j: the `2n` pairwise-distinct positive integers used
/// as polynomial evaluation points and Lagrange node identifiers.
pub fn point(i: usize, j: usize) -> (r: i32)
    requires
        2 * (i as int + 1) + j as int <= i32::MAX as int,
    ensures
        r as int == point_spec(i as int, j as int),
{
    2 * (i as i32 + 1) + j as i32
}

/// The point values are pairwise distinct: positions of distinct index or
/// bit never share an abscissa.
pub proof fn lemma_points_distinct(i1: int, j1: int, i2: int, j2: int)
    requires
        0 <= j1 <= 1,
        0 <= j2 <= 1,
        i1 != i2 || j1 != j2,
    ensures
        point_spec(i1, j1) != point_spec(i2, j2),
{
}

/// One pattern character matches one input character.
pub open spec fn char_matches(pc: char, ic: char) -> bool {
    pc == '*' || pc == ic
}

/// The pattern matches the input positionally, a wildcard accepting either
/// bit.
pub open spec fn pattern_matches(pat: Seq<char>, inp: Seq<char>) -> bool {
    &&& pat.len() == inp.len()
    &&& forall|k: int| 0 <= k < pat.len() ==> char_matches(pat[k], inp[k])
}

/// A well-formed pattern: non-empty, over `{'0','1','*'}`.
pub open spec fn valid_pattern(pat: Seq<char>) -> bool {
    &&& pat.len() > 0
    &&& forall|k: int| 0 <= k < pat.len() ==> (pat[k] == '0' || pat[k] == '1' || pat[k] == '*')
}

/// A well-formed query: every character a binary digit.
pub open spec fn valid_input(inp: Seq<char>) -> bool {
    forall|k: int| 0 <= k < inp.len() ==> (inp[k] == '0' || inp[k] == '1')
}

/// A pattern of wildcards matches every binary string of its length.
pub proof fn lemma_all_wildcards_match(pat: Seq<char>, inp: Seq<char>)
    requires
        pat.len() == inp.len(),
        forall|k: int| 0 <= k < pat.len() ==> pat[k] == '*',
    ensures
        pattern_matches(pat, inp),
{
}

/// How an operation fails.
#[derive(Clone, Copy, Debug, PartialEq, Eq, Structural)]
pub enum ObfError {
    /// A malformed or empty pattern at construction, or a wrong-length or
    /// non-binary input at evaluation.
    Precondition,
    /// A required modular inverse does not exist.
    Arithmetic,
    /// The bounded search for fresh parameters ran out of random attempts;
    /// unreachable in practice.
    Exhausted,
}

/// The fixed level-80 modulus.
pub open spec fn modulus_80() -> int {
    2417851639229258349415043
}

/// The fixed level-80 subgroup order.
pub open spec fn order_80() -> int {
    1208925819614629174707521
}

/// The fixed level-128 modulus.
pub open spec fn modulus_128() -> int {
    2 * (18446744073709551616int * 18446744073709551616) + 16815
}

/// The fixed level-128 subgroup order.
pub open spec fn order_128() -> int {
    18446744073709551616int * 18446744073709551616 + 8407
}

/// Builds the precomputed level-80 pair from 32-bit limbs.
fn fixed_params_80() -> (r: (Mpz, Mpz))
    ensures
        mpz_val(r.0) == modulus_80(),
        mpz_val(r.1) == order_80(),
{
    let base = mpz_from_u64(4294967296);
    let b2 = mpz_mul(&base, &base);
    let p = mpz_add(&mpz_mul(&mpz_from_u64(131072), &b2), &mpz_from_u64(2691));
    let q = mpz_add(&mpz_mul(&mpz_from_u64(65536), &b2), &mpz_from_u64(1345));
    (p, q)
}

/// Builds the precomputed level-128 pair from 32-bit limbs.
fn fixed_params_128() -> (r: (Mpz, Mpz))
    ensures
        mpz_val(r.0) == modulus_128(),
        mpz_val(r.1) == order_128(),
{
    let base = mpz_from_u64(4294967296);
    let b2 = mpz_mul(&base, &base);
    let b4 = mpz_mul(&b2, &b2);
    let p = mpz_add(&mpz_mul(&mpz_from_u64(2), &b4), &mpz_from_u64(16815));
    let q = mpz_add(&b4, &mpz_from_u64(8407));
    (p, q)
}

/// 2^k as an arbitrary-precision integer.
fn mpz_pow2(k: usize) -> (r: Mpz)
    ensures
        mpz_val(r) == pow(2, k as nat),
{
    let two = mpz_from_u64(2);
    let mut r = mpz_from_u64(1);
    let mut t: usize = 0;
    proof {
        vstd::arithmetic::power::lemma_pow0(2);
    }
    while t < k
        invariant
            t <= k,
            mpz_val(r) == pow(2, t as nat),
            mpz_val(two) == 2,
        decreases k - t,
    {
        r = mpz_mul(&r, &two);
        assert(pow(2, (t + 1) as nat) == 2 * pow(2, t as nat)) by {
            vstd::arithmetic::power::lemma_pow1(2);
            vstd::arithmetic::power::lemma_pow_adds(2, 1nat, t as nat);
        }
        t = t + 1;
    }
    r
}

/// A uniformly sampled integer in `[0, p)`: `chunks` words of CSPRNG output
/// assembled into one integer, reduced modulo `p`.
fn mpz_rand_below(p: &Mpz, chunks: usize) -> (r: Mpz)
    requires
        mpz_val(*p) > 0,
    ensures
        0 <= mpz_val(r) < mpz_val(*p),
{
    let base32 = mpz_from_u64(4294967296);
    let base = mpz_mul(&base32, &base32);
    let mut acc = mpz_from_u64(0);
    let mut t: usize = 0;
    while t < chunks
        invariant
            mpz_val(acc) >= 0,
            mpz_val(base) == 4294967296 * 4294967296,
        decreases chunks - t,
    {
        let w: u64 = rand::random();
        let shifted = mpz_mul(&acc, &base);
        proof {
            lemma_mul_nonnegative(mpz_val(acc), mpz_val(base));
        }
        acc = mpz_add(&shifted, &mpz_from_u64(w));
        t = t + 1;
    }
    mpz_mod(&acc, p)
}

/// Searches for a fresh strong prime pair sized for the level: a prime
/// `q > 2^(bits-2)` with `p = 2q+1` prime, and the scheme's fixed base 2
/// validated to lie in the order-`q` subgroup (`2^q mod p == 1`), as the
/// design requires of freshly generated parameters.  The search time is
/// unbounded in expectation only by chance; a candidate budget of `2^32`
/// bounds it formally, and running out is surfaced as `Exhausted` (never
/// observed in practice).  Levels below 3 are excluded: no level-1 or
/// level-2 safe-prime pair passes the generator validation, so the search
/// there could never end.
fn gen_strong_prime(bits: usize) -> (r: Result<(Mpz, Mpz), ObfError>)
    requires
        3 <= bits,
    ensures
        r matches Ok(pq) ==> {
            &&& is_prime(mpz_val(pq.0))
            &&& is_prime(mpz_val(pq.1))
            &&& mpz_val(pq.0) == 2 * mpz_val(pq.1) + 1
            &&& mpz_val(pq.1) > pow(2, (bits - 2) as nat)
            &&& pow(2, mpz_val(pq.1) as nat) % mpz_val(pq.0) == 1
        },
        r is Err ==> (r matches Err(e) && e == ObfError::Exhausted),
{
    let two = mpz_from_u64(2);
    let one = mpz_from_u64(1);
    let floor = mpz_pow2(bits - 2);
    proof {
        lemma_pow_positive(2, (bits - 2) as nat);
    }
    let mut attempts: u64 = 0;
    while attempts < 0xffff_ffff
        invariant
            mpz_val(floor) == pow(2, (bits - 2) as nat),
            mpz_val(floor) > 0,
            mpz_val(two) == 2,
            mpz_val(one) == 1,
        decreases 0xffff_ffffu64 - attempts,
    {
        let noise = mpz_rand_below(&floor, bits / 64 + 2);
        let seed = mpz_add(&noise, &floor);
        let q = mpz_nextprime(&seed);
        let p = mpz_add(&mpz_mul(&two, &q), &one);
        if mpz_is_probab_prime(&p, 50) {
            let t = mpz_powm(&two, &q, &p);
            if mpz_eq(&t, &one) {
                return Ok((p, q));
            }
        }
        attempts = attempts + 1;
    }
    Err(ObfError::Exhausted)
}

/// Resolves a security level to a `(modulus, subgroup order)` pair: the
/// levels 80 and 128 are served from the precomputed table; any other level
/// triggers fresh strong-prime generation, sized for the level and with the
/// fixed base 2 validated to lie in the order-`q` subgroup.
///
/// The precomputed pairs are served as they stand, for reproducibility.
/// Note that the level-128 pair passes that same validation (its modulus is
/// 7 mod 8), but the level-80 pair does not: its modulus is 3 mod 8, so 2
/// is a quadratic non-residue and generates the whole order-`2q` group.
/// `WildcardObfuscation::generator_validated` exposes the check on any
/// constructed object; see its note for what the level-80 anomaly means
/// for evaluation.
pub fn params_for_level(secparam: usize) -> (r: Result<(Mpz, Mpz), ObfError>)
    requires
        3 <= secparam,
    ensures
        r matches Ok(pq) ==> {
            &&& mpz_val(pq.0) == 2 * mpz_val(pq.1) + 1
            &&& mpz_val(pq.1) >= 2
            &&& (mpz_val(pq.0) - 1) % mpz_val(pq.1) == 0
            &&& (secparam == 80 ==> mpz_val(pq.0) == modulus_80() && mpz_val(pq.1) == order_80())
            &&& (secparam == 128 ==> mpz_val(pq.0) == modulus_128() && mpz_val(pq.1)
                == order_128())
            &&& (secparam != 80 && secparam != 128 ==> {
                &&& is_prime(mpz_val(pq.0))
                &&& is_prime(mpz_val(pq.1))
                &&& mpz_val(pq.1) > pow(2, (secparam - 2) as nat)
                &&& pow(2, mpz_val(pq.1) as nat) % mpz_val(pq.0) == 1
            })
        },
        secparam == 80 || secparam == 128 ==> r is Ok,
        r is Err ==> (r matches Err(e) && e == ObfError::Exhausted),
{
    let r = if secparam == 80 {
        Ok(fixed_params_80())
    } else if secparam == 128 {
        Ok(fixed_params_128())
    } else {
        gen_strong_prime(secparam)
    };
    match r {
        Ok(pq) => {
            proof {
                lemma_mod_multiples_basic(2, mpz_val(pq.1));
            }
            Ok(pq)
        },
        Err(e) => Err(e),
    }
}


/// The value of the secret polynomial `c_1 x + c_2 x^2 + ... + c_m x^m`
/// determined by coefficient sequence `coefs` (constant term fixed to zero)
/// at abscissa `x`.
pub open spec fn poly_at(coefs: Seq<int>, x: int) -> int
    decreases coefs.len(),
{
    if coefs.len() == 0 {
        0
    } else {
        poly_at(coefs.drop_last(), x) + coefs.last() * pow(x, coefs.len() as nat)
    }
}

/// A power of a non-negative base is non-negative.
proof fn lemma_pow_nonneg(b: int, e: nat)
    requires
        b >= 0,
    ensures
        pow(b, e) >= 0,
    decreases e,
{
    reveal(pow);
    if e > 0 {
        lemma_pow_nonneg(b, (e - 1) as nat);
        lemma_mul_nonnegative(b, pow(b, (e - 1) as nat));
    }
}

/// Row `i` of the matrix is consistent with the pattern: every entry that
/// the pattern admits at that position is a genuine encoding
/// `2^F(point(i,j)) mod p` of the secret polynomial given by `cs`.
pub open spec fn row_encodes(pat: Seq<char>, cs: Seq<int>, p: int, row: (int, int), i: int) -> bool {
    &&& ((pat[i] == '0' || pat[i] == '*') ==> row.0 == pow(2, poly_at(cs, point_spec(i, 0)) as nat)
        % p)
    &&& ((pat[i] == '1' || pat[i] == '*') ==> row.1 == pow(2, poly_at(cs, point_spec(i, 1)) as nat)
        % p)
}

/// The matrix `h` is an encoding of `pat` under modulus `p`: some secret
/// coefficient sequence `cs` of length `n-1` over `[0, p)` makes every
/// pattern-consistent entry a genuine `2^F(point(i,j)) mod p`.
pub open spec fn encodes(pat: Seq<char>, cs: Seq<int>, p: int, h: Seq<(int, int)>) -> bool {
    &&& cs.len() == pat.len() - 1
    &&& (forall|k: int| 0 <= k < cs.len() ==> 0 <= #[trigger] cs[k] < p)
    &&& h.len() == pat.len()
    &&& (forall|i: int| 0 <= i < pat.len() ==> row_encodes(pat, cs, p, #[trigger] h[i], i))
}

/// Evaluates the secret polynomial with coefficients `coefs` at `x`.
fn poly_eval(coefs: &Vec<Mpz>, x: u64) -> (y: Mpz)
    requires
        forall|k: int| 0 <= k < coefs@.len() ==> mpz_val(#[trigger] coefs@[k]) >= 0,
    ensures
        mpz_val(y) == poly_at(coefs@.map_values(|c: Mpz| mpz_val(c)), x as int),
        mpz_val(y) >= 0,
{
    let ghost m = coefs@.map_values(|c: Mpz| mpz_val(c));
    let xz = mpz_from_u64(x);
    let mut xp = mpz_from_u64(x);
    let mut y = mpz_from_u64(0);
    let mut t: usize = 0;
    proof {
        vstd::arithmetic::power::lemma_pow1(x as int);
    }
    while t < coefs.len()
        invariant
            t <= coefs@.len(),
            forall|k: int| 0 <= k < coefs@.len() ==> mpz_val(#[trigger] coefs@[k]) >= 0,
            m == coefs@.map_values(|c: Mpz| mpz_val(c)),
            mpz_val(xz) == x as int,
            mpz_val(xp) == pow(x as int, (t + 1) as nat),
            mpz_val(y) == poly_at(m.take(t as int), x as int),
            mpz_val(y) >= 0,
        decreases coefs@.len() - t,
    {
        let term = mpz_mul(&coefs[t], &xp);
        proof {
            lemma_pow_nonneg(x as int, (t + 1) as nat);
            lemma_mul_nonnegative(mpz_val(coefs@[t as int]), mpz_val(xp));
            assert(m.take(t + 1).drop_last() =~= m.take(t as int));
            assert(m.take(t + 1).last() == m[t as int]);
            assert(m.take(t + 1).len() == t + 1);
        }
        y = mpz_add(&y, &term);
        xp = mpz_mul(&xp, &xz);
        proof {
            vstd::arithmetic::power::lemma_pow1(x as int);
            vstd::arithmetic::power::lemma_pow_adds(x as int, (t + 1) as nat, 1nat);
        }
        t = t + 1;
    }
    proof {
        assert(m.take(coefs@.len() as int) =~= m);
    }
    y
}

/// The public result of obfuscating a wildcard pattern: the modulus `p`,
/// the subgroup order `q`, and the `n x 2` encoding matrix `h`.  Immutable
/// once constructed; evaluation never mutates it.
pub struct WildcardObfuscation {
    p: Mpz,
    q: Mpz,
    h: Vec<(Mpz, Mpz)>,
}

impl WildcardObfuscation {
    /// The modulus, as a mathematical integer.
    pub closed spec fn p_val(&self) -> int {
        mpz_val(self.p)
    }

    /// The subgroup order, as a mathematical integer.
    pub closed spec fn q_val(&self) -> int {
        mpz_val(self.q)
    }

    /// The encoding matrix, as mathematical integers: one `(h[i][0], h[i][1])`
    /// pair per pattern position.
    pub closed spec fn h_val(&self) -> Seq<(int, int)> {
        self.h@.map_values(|pr: (Mpz, Mpz)| (mpz_val(pr.0), mpz_val(pr.1)))
    }

    /// The pattern length the object was built for.
    pub open spec fn n(&self) -> int {
        self.h_val().len() as int
    }

    /// Structural well-formedness: the modulus is the safe-prime companion
    /// of the order, the matrix is of manageable size, and every matrix
    /// entry is an integer mod `p`.
    pub closed spec fn wf(&self) -> bool {
        &&& self.p_val() == 2 * self.q_val() + 1
        &&& self.q_val() >= 2
        &&& self.h@.len() <= max_pattern_len()
        &&& forall|k: int| 0 <= k < self.h_val().len() ==> {
            &&& 0 <= (#[trigger] self.h_val()[k]).0 < self.p_val()
            &&& 0 <= self.h_val()[k].1 < self.p_val()
        }
    }

    /// The decimal rendering of the modulus.
    pub fn p_decimal(&self) -> (r: String)
        ensures
            r@ == decimal_of(self.p_val()),
    {
        mpz_to_decimal(&self.p)
    }

    /// The decimal rendering of the subgroup order.
    pub fn q_decimal(&self) -> (r: String)
        ensures
            r@ == decimal_of(self.q_val()),
    {
        mpz_to_decimal(&self.q)
    }

    /// Obfuscates `pat` at security level `secparam`.
    ///
    /// Resolves `(p, q)`, samples the secret polynomial `F` (with `F(0)=0`)
    /// uniformly, and fills the matrix: entries consistent with the pattern
    /// hold `2^F(point(i,j)) mod p` (witnessed by the existential over the
    /// coefficient sequence in the contract), all others fresh uniform
    /// decoys.  The secret coefficients are local to this call and dropped
    /// on return.
    ///
    /// Levels 80 and 128 use the fixed precomputed pairs; any other level
    /// pays fresh generation, whose latency is unbounded in practice and
    /// whose formal candidate budget surfaces as `Exhausted` if ever spent.
    /// Levels 1 and 2 are excluded: no parameters of that size pass the
    /// generator validation the fresh path enforces.
    pub fn encode(pat: &str, secparam: usize) -> (r: Result<Self, ObfError>)
        requires
            3 <= secparam,
            pat@.len() <= max_pattern_len(),
        ensures
            r matches Ok(o) ==> {
                &&& valid_pattern(pat@)
                &&& o.wf()
                &&& o.n() == pat@.len()
                &&& (o.p_val() - 1) % o.q_val() == 0
                &&& exists|cs: Seq<int>| encodes(pat@, cs, o.p_val(), o.h_val())
                &&& (secparam == 80 ==> o.p_val() == modulus_80() && o.q_val() == order_80())
                &&& (secparam == 128 ==> o.p_val() == modulus_128() && o.q_val() == order_128())
                &&& (secparam != 80 && secparam != 128 ==> {
                    &&& is_prime(o.p_val())
                    &&& is_prime(o.q_val())
                    &&& o.q_val() > pow(2, (secparam - 2) as nat)
                    &&& pow(2, o.q_val() as nat) % o.p_val() == 1
                })
            },
            r == Err::<Self, ObfError>(ObfError::Precondition) <==> !valid_pattern(pat@),
            valid_pattern(pat@) && (secparam == 80 || secparam == 128) ==> r is Ok,
            r is Err ==> (r matches Err(e) && (e == ObfError::Precondition || e
                == ObfError::Exhausted)),
    {
        let n = pat.unicode_len();
        if n == 0 {
            return Err(ObfError::Precondition);
        }
        let mut i: usize = 0;
        while i < n
            invariant
            i <= n,
            n == pat@.len() <= max_pattern_len(),
            forall|k: int| 0 <= k < i ==> (pat@[k] == '0' || pat@[k] == '1' || pat@[k] == '*'),
            decreases n - i,
        {
            let c = pat.get_char(i);
            if !(c == '0' || c == '1' || c == '*') {
                return Err(ObfError::Precondition);
            }
            i = i + 1;
        }
        assert(valid_pattern(pat@));
        let (p, q) = match params_for_level(secparam) {
            Ok(pq) => pq,
            Err(e) => { return Err(e); },
        };
        let ghost pv = mpz_val(p);
        let g = mpz_from_u64(2);
        let chunks = secparam / 64 + 2;
        let mut f: Vec<Mpz> = Vec::new();
        let mut t: usize = 0;
        while t < n - 1
            invariant
            n >= 1,
            t <= n - 1,
            mpz_val(p) == pv > 0,
            f@.len() == t,
            forall|k: int| 0 <= k < f@.len() ==> 0 <= mpz_val(#[trigger] f@[k]) < pv,
            decreases n - 1 - t,
        {
            f.push(mpz_rand_below(&p, chunks));
            t = t + 1;
        }
        let ghost cs = f@.map_values(|c: Mpz| mpz_val(c));
        let mut h: Vec<(Mpz, Mpz)> = Vec::new();
        let mut i: usize = 0;
        while i < n
            invariant
            i <= n,
            n == pat@.len() <= max_pattern_len(),
            h@.len() == i,
            mpz_val(p) == pv > 0,
            mpz_val(g) == 2,
            f@.len() == n - 1,
            forall|k: int| 0 <= k < f@.len() ==> 0 <= mpz_val(#[trigger] f@[k]) < pv,
            cs == f@.map_values(|c: Mpz| mpz_val(c)),
            forall|r: int| 0 <= r < i ==> {
                &&& 0 <= mpz_val((#[trigger] h@[r]).0) < pv
                &&& 0 <= mpz_val(h@[r].1) < pv
                &&& row_encodes(pat@, cs, pv, (mpz_val(h@[r].0), mpz_val(h@[r].1)), r)
            },
            decreases n - i,
        {
            let c = pat.get_char(i);
            let e0 = if c == '0' || c == '*' {
                let y = poly_eval(&f, 2 * (i as u64 + 1));
                mpz_powm(&g, &y, &p)
            } else {
                mpz_rand_below(&p, chunks)
            };
            let e1 = if c == '1' || c == '*' {
                let y = poly_eval(&f, 2 * (i as u64 + 1) + 1);
                mpz_powm(&g, &y, &p)
            } else {
                mpz_rand_below(&p, chunks)
            };
            proof {
                assert(point_spec(i as int, 0) == 2 * (i as int + 1));
                assert(point_spec(i as int, 1) == 2 * (i as int + 1) + 1);
                assert(row_encodes(pat@, cs, pv, (mpz_val(e0), mpz_val(e1)), i as int));
            }
            h.push((e0, e1));
            i = i + 1;
        }
        let o = WildcardObfuscation { p, q, h };
        proof {
            assert(o.h_val().len() == n);
            assert(forall|r: int| 0 <= r < n ==> o.h_val()[r] == (mpz_val(o.h@[r].0), mpz_val(
                o.h@[r].1,
            )));
            assert(encodes(pat@, cs, o.p_val(), o.h_val()));
            assert(o.wf());
        }
        Ok(o)
    }
}


/// The bit selected at position `k` of a binary input.
pub open spec fn bit_at(s: Seq<char>, k: int) -> int {
    if s[k] == '1' {
        1
    } else {
        0
    }
}

/// The abscissa selected by row `k` under input `s`.
pub open spec fn sel_point(s: Seq<char>, k: int) -> int {
    point_spec(k, bit_at(s, k))
}

/// Partial numerator of the Lagrange coefficient for row `i`: the product
/// of `-point(j, x_j)` over `j < k`, `j != i`.
pub open spec fn num_prefix(i: int, s: Seq<char>, k: int) -> int
    decreases k,
{
    if k <= 0 {
        1
    } else if k - 1 == i {
        num_prefix(i, s, k - 1)
    } else {
        num_prefix(i, s, k - 1) * (-sel_point(s, k - 1))
    }
}

/// Partial denominator of the Lagrange coefficient for row `i`: the product
/// of `point(i, x_i) - point(j, x_j)` over `j < k`, `j != i`.
pub open spec fn den_prefix(i: int, s: Seq<char>, k: int) -> int
    decreases k,
{
    if k <= 0 {
        1
    } else if k - 1 == i {
        den_prefix(i, s, k - 1)
    } else {
        den_prefix(i, s, k - 1) * (sel_point(s, i) - sel_point(s, k - 1))
    }
}

/// The full (unreduced) Lagrange numerator for row `i`.
pub open spec fn lag_num(i: int, s: Seq<char>) -> int {
    num_prefix(i, s, s.len() as int)
}

/// The full (unreduced) Lagrange denominator for row `i`.
pub open spec fn lag_den(i: int, s: Seq<char>) -> int {
    den_prefix(i, s, s.len() as int)
}

/// The reduced numerator, sign carried by the numerator (denominator made
/// positive), as exact rational reduction produces it.
pub open spec fn norm_num(i: int, s: Seq<char>) -> int {
    let g = gcd_of(lag_num(i, s), lag_den(i, s));
    let nr = lag_num(i, s) / g;
    let dr = lag_den(i, s) / g;
    if dr < 0 {
        -nr
    } else {
        nr
    }
}

/// The reduced, positive denominator.
pub open spec fn norm_den(i: int, s: Seq<char>) -> int {
    let g = gcd_of(lag_num(i, s), lag_den(i, s));
    let dr = lag_den(i, s) / g;
    if dr < 0 {
        -dr
    } else {
        dr
    }
}

/// Whether the reduced denominator of row `i` is invertible modulo `q`.
pub open spec fn row_invertible(i: int, s: Seq<char>, q: int) -> bool {
    invertible(norm_den(i, s), q)
}

/// The exponent applied to row `i`'s selected entry: the reduced numerator
/// times the inverse of the reduced denominator, reduced modulo `q` with
/// the sign of the numerator (truncated remainder).
pub open spec fn row_exp(i: int, s: Seq<char>, q: int) -> int {
    let prod = norm_num(i, s) * inv_mod(norm_den(i, s), q);
    if prod >= 0 {
        prod % q
    } else {
        -((-prod) % q)
    }
}

/// The matrix entry selected by row `k` under input `s`.
pub open spec fn sel_entry(h: Seq<(int, int)>, s: Seq<char>, k: int) -> int {
    if bit_at(s, k) == 0 {
        h[k].0
    } else {
        h[k].1
    }
}

/// Row `k` evaluates without an arithmetic impossibility: its reduced
/// denominator is invertible mod `q`, and if its exponent is negative, the
/// selected entry is invertible mod `p`.
pub open spec fn row_ok(h: Seq<(int, int)>, s: Seq<char>, k: int, q: int, p: int) -> bool {
    &&& row_invertible(k, s, q)
    &&& (row_exp(k, s, q) >= 0 || invertible(sel_entry(h, s, k), p))
}

/// The factor contributed by row `k`: the selected entry raised to the row
/// exponent mod `p`, a negative exponent acting through the inverse.
pub open spec fn row_val(h: Seq<(int, int)>, s: Seq<char>, k: int, q: int, p: int) -> int {
    let e = row_exp(k, s, q);
    if e >= 0 {
        pow(sel_entry(h, s, k), e as nat) % p
    } else {
        pow(inv_mod(sel_entry(h, s, k), p), (-e) as nat) % p
    }
}

/// The running product of row factors over rows `j < k`, reduced mod `p`
/// at each step.
pub open spec fn acc_prefix(h: Seq<(int, int)>, s: Seq<char>, q: int, p: int, k: int) -> int
    decreases k,
{
    if k <= 0 {
        1
    } else {
        (acc_prefix(h, s, q, p, k - 1) * row_val(h, s, k - 1, q, p)) % p
    }
}

/// Every row of the evaluation is free of arithmetic impossibilities.
pub open spec fn eval_rows_ok(h: Seq<(int, int)>, s: Seq<char>, q: int, p: int) -> bool {
    forall|k: int| 0 <= k < s.len() ==> row_ok(h, s, k, q, p)
}

/// The result of a successful evaluation: 1 exactly when the full product
/// lands on the group identity.
pub open spec fn eval_value(h: Seq<(int, int)>, s: Seq<char>, q: int, p: int) -> int {
    if acc_prefix(h, s, q, p, s.len() as int) == 1 {
        1
    } else {
        0
    }
}

/// Neither Lagrange partial product is ever zero: every numerator factor is
/// a strictly negative point, and every denominator factor is a difference
/// of distinct points.
pub proof fn lemma_prefix_nonzero(i: int, s: Seq<char>, k: int)
    requires
        0 <= i < s.len(),
        0 <= k <= s.len(),
    ensures
        num_prefix(i, s, k) != 0,
        den_prefix(i, s, k) != 0,
    decreases k,
{
    if k > 0 {
        lemma_prefix_nonzero(i, s, k - 1);
        if k - 1 != i {
            assert(sel_point(s, k - 1) >= 2);
            lemma_points_distinct(i, bit_at(s, i), k - 1, bit_at(s, k - 1));
            assert(sel_point(s, i) - sel_point(s, k - 1) != 0);
            assert(num_prefix(i, s, k) != 0) by (nonlinear_arith)
                requires
                    num_prefix(i, s, k) == num_prefix(i, s, k - 1) * (-sel_point(s, k - 1)),
                    num_prefix(i, s, k - 1) != 0,
                    sel_point(s, k - 1) >= 2,
            ;
            assert(den_prefix(i, s, k) != 0) by (nonlinear_arith)
                requires
                    den_prefix(i, s, k) == den_prefix(i, s, k - 1) * (sel_point(s, i)
                        - sel_point(s, k - 1)),
                    den_prefix(i, s, k - 1) != 0,
                    sel_point(s, i) - sel_point(s, k - 1) != 0,
            ;
        }
    }
}

/// Computes the signed exponent of row `i`: the magnitude and a sign flag,
/// or the arithmetic-impossibility error when the reduced denominator has
/// no inverse mod `q`.
fn row_exponent(i: usize, inp: &str, q: &Mpz) -> (r: Result<(Mpz, bool), ObfError>)
    requires
        i < inp@.len(),
        inp@.len() <= max_pattern_len(),
        mpz_val(*q) > 1,
    ensures
        r matches Ok(eb) ==> {
            &&& row_invertible(i as int, inp@, mpz_val(*q))
            &&& mpz_val(eb.0) >= 0
            &&& (if eb.1 {
                -mpz_val(eb.0)
            } else {
                mpz_val(eb.0)
            }) == row_exp(i as int, inp@, mpz_val(*q))
        },
        r is Err ==> (r matches Err(e) && e == ObfError::Arithmetic) && !row_invertible(
            i as int,
            inp@,
            mpz_val(*q),
        ),
{
    let ghost s = inp@;
    let n = inp.unicode_len();
    let ci = inp.get_char(i);
    let xi: i64 = if ci == '1' {
        1
    } else {
        0
    };
    let pi: i64 = 2 * (i as i64 + 1) + xi;
    assert(pi == sel_point(s, i as int));
    let mut num = mpz_from_i64(1);
    let mut den = mpz_from_i64(1);
    let mut j: usize = 0;
    while j < n
        invariant
            j <= n,
            i < n,
            n == s.len() <= max_pattern_len(),
            s == inp@,
            pi == sel_point(s, i as int),
            mpz_val(num) == num_prefix(i as int, s, j as int),
            mpz_val(den) == den_prefix(i as int, s, j as int),
        decreases n - j,
    {
        if j != i {
            let cj = inp.get_char(j);
            let xj: i64 = if cj == '1' {
                1
            } else {
                0
            };
            let pj: i64 = 2 * (j as i64 + 1) + xj;
            assert(pj == sel_point(s, j as int));
            num = mpz_mul(&num, &mpz_from_i64(-pj));
            den = mpz_mul(&den, &mpz_from_i64(pi - pj));
        }
        j = j + 1;
    }
    proof {
        lemma_prefix_nonzero(i as int, s, s.len() as int);
    }
    let gz = mpz_gcd(&num, &den);
    proof {
        lemma_gcd_of_is(mpz_val(gz), mpz_val(num), mpz_val(den));
    }
    let nr = mpz_div_floor(&num, &gz);
    let dr = mpz_div_floor(&den, &gz);
    let zero = mpz_from_i64(0);
    let m1 = mpz_from_i64(-1);
    let dneg = mpz_lt(&dr, &zero);
    let nn = if dneg {
        mpz_mul(&nr, &m1)
    } else {
        nr
    };
    let dn = if dneg {
        mpz_mul(&dr, &m1)
    } else {
        dr
    };
    assert(mpz_val(nn) == norm_num(i as int, s));
    assert(mpz_val(dn) == norm_den(i as int, s));
    match mpz_invert(&dn, q) {
        None => Err(ObfError::Arithmetic),
        Some(inv) => {
            proof {
                lemma_inv_mod_is(mpz_val(dn), mpz_val(*q), mpz_val(inv));
            }
            let neg = mpz_lt(&nn, &zero);
            let absn = if neg {
                mpz_mul(&nn, &m1)
            } else {
                nn
            };
            let prod = mpz_mul(&absn, &inv);
            proof {
                lemma_mul_nonnegative(mpz_val(absn), mpz_val(inv));
                vstd::arithmetic::mul::lemma_mul_unary_negation(
                    mpz_val(nn),
                    mpz_val(inv),
                );
            }
            let emag = mpz_mod(&prod, q);
            proof {
                let qq = mpz_val(*q);
                let n0 = norm_num(i as int, s);
                let iv = inv_mod(norm_den(i as int, s), qq);
                let prod0 = n0 * iv;
                assert(mpz_val(inv) == iv);
                if neg {
                    assert(mpz_val(absn) == -n0);
                    assert(mpz_val(prod) == (-n0) * iv);
                    assert((-n0) * iv == -prod0);
                    assert(mpz_val(prod) >= 0);
                    assert(mpz_val(emag) == (-prod0) % qq);
                    if prod0 == 0 {
                        assert(0int % qq == 0) by (nonlinear_arith)
                            requires
                                qq > 1,
                        ;
                        assert(row_exp(i as int, s, qq) == 0);
                        assert(mpz_val(emag) == 0);
                    } else {
                        assert(prod0 < 0);
                        assert(row_exp(i as int, s, qq) == -((-prod0) % qq));
                    }
                } else {
                    assert(mpz_val(absn) == n0);
                    assert(mpz_val(prod) == prod0);
                    assert(prod0 >= 0);
                    assert(row_exp(i as int, s, qq) == prod0 % qq);
                }
            }
            Ok((emag, neg))
        },
    }
}


impl WildcardObfuscation {
    /// Evaluates the candidate binary string `inp` against the hidden
    /// pattern.
    ///
    /// Returns `Ok(1)` or `Ok(0)` exactly as the exponent-domain Lagrange
    /// reconstruction lands on the group identity or not: the result is a
    /// pure function of the immutable object and the input, so repeated
    /// calls always agree.  A wrong-length or non-binary input is rejected;
    /// a missing modular inverse is reported, never silently defaulted.
    pub fn eval(&self, inp: &str) -> (r: Result<usize, ObfError>)
        requires
            self.wf(),
        ensures
            r == Err::<usize, ObfError>(ObfError::Precondition) <==> (inp@.len() != self.n()
                || !valid_input(inp@)),
            inp@.len() == self.n() && valid_input(inp@) ==> {
                &&& (r == Err::<usize, ObfError>(ObfError::Arithmetic) <==> !eval_rows_ok(
                    self.h_val(),
                    inp@,
                    self.q_val(),
                    self.p_val(),
                ))
                &&& (eval_rows_ok(self.h_val(), inp@, self.q_val(), self.p_val()) ==> r
                    == Ok::<usize, ObfError>(eval_value(
                    self.h_val(),
                    inp@,
                    self.q_val(),
                    self.p_val(),
                ) as usize))
            },
    {
        let ghost s = inp@;
        let ghost hv = self.h_val();
        let ghost pv = self.p_val();
        let ghost qv = self.q_val();
        let n = self.h.len();
        if inp.unicode_len() != n {
            return Err(ObfError::Precondition);
        }
        let mut i: usize = 0;
        while i < n
            invariant
            i <= n,
            n == s.len(),
            s == inp@,
            forall|k: int| 0 <= k < i ==> (s[k] == '0' || s[k] == '1'),
            decreases n - i,
        {
            let c = inp.get_char(i);
            if !(c == '0' || c == '1') {
                return Err(ObfError::Precondition);
            }
            i = i + 1;
        }
        assert(valid_input(s));
        let one = mpz_from_u64(1);
        let mut t = mpz_from_u64(1);
        let mut i: usize = 0;
        while i < n
            invariant
            i <= n,
            self.wf(),
            n == self.h@.len(),
            n == s.len(),
            s == inp@,
            hv == self.h_val(),
            pv == self.p_val(),
            qv == self.q_val(),
            valid_input(s),
            mpz_val(one) == 1,
            mpz_val(t) == acc_prefix(hv, s, qv, pv, i as int),
            forall|k: int| 0 <= k < i ==> row_ok(hv, s, k, qv, pv),
            decreases n - i,
        {
            let eb = match row_exponent(i, inp, &self.q) {
                Ok(eb) => eb,
                Err(e) => {
                    assert(!row_ok(hv, s, i as int, qv, pv));
                    return Err(ObfError::Arithmetic);
                },
            };
            let emag = eb.0;
            let neg = eb.1;
            let ci = inp.get_char(i);
            let base = if ci == '1' {
                &self.h[i].1
            } else {
                &self.h[i].0
            };
            proof {
                assert(hv[i as int] == (mpz_val(self.h@[i as int].0), mpz_val(
                    self.h@[i as int].1,
                )));
                assert(mpz_val(*base) == sel_entry(hv, s, i as int));
            }
            let negative_exp = if neg {
                !mpz_eq(&emag, &mpz_from_u64(0))
            } else {
                false
            };
            let ghost e = row_exp(i as int, s, qv);
            let val = if negative_exp {
                assert(e < 0 && -e == mpz_val(emag));
                match mpz_invert(base, &self.p) {
                    None => {
                        assert(!row_ok(hv, s, i as int, qv, pv));
                        return Err(ObfError::Arithmetic);
                    },
                    Some(binv) => {
                        proof {
                            lemma_inv_mod_is(mpz_val(*base), pv, mpz_val(binv));
                        }
                        mpz_powm(&binv, &emag, &self.p)
                    },
                }
            } else {
                assert(e >= 0 && e == mpz_val(emag));
                mpz_powm(base, &emag, &self.p)
            };
            proof {
                assert(mpz_val(val) == row_val(hv, s, i as int, qv, pv));
                assert(row_ok(hv, s, i as int, qv, pv));
            }
            t = mpz_mod(&mpz_mul(&t, &val), &self.p);
            proof {
                assert(mpz_val(t) == acc_prefix(hv, s, qv, pv, i as int + 1));
            }
            i = i + 1;
        }
        assert(eval_rows_ok(hv, s, qv, pv));
        let res: usize = if mpz_eq(&t, &one) {
            1
        } else {
            0
        };
        assert(res as int == eval_value(hv, s, qv, pv));
        Ok(res)
    }

    /// The generator validation the scheme's design calls for at parameter
    /// resolution: whether the fixed base 2 lies in the order-`q` subgroup,
    /// i.e. `2^q mod p == 1`.
    ///
    /// Freshly generated parameters always pass (the search enforces it),
    /// and so does the fixed level-128 pair; the fixed level-80 pair fails
    /// it, since its modulus is 3 mod 8 and 2 is then a quadratic
    /// non-residue of order `2q`.  On such parameters the matching-side
    /// guarantee of evaluation is exact only for inputs whose Lagrange
    /// weights reduce to integers; for fractional weights a matching input
    /// evaluates to 1 with probability about one half over construction
    /// randomness.
    pub fn generator_validated(&self) -> (r: bool)
        requires
            self.wf(),
        ensures
            r <==> pow(2, self.q_val() as nat) % self.p_val() == 1,
    {
        let two = mpz_from_u64(2);
        let one = mpz_from_u64(1);
        let t = mpz_powm(&two, &self.q, &self.p);
        mpz_eq(&t, &one)
    }
}


/// Evaluation has no hidden mutable state and no order dependence: the
/// value a successful `eval` call returns is fully determined by the
/// immutable object and the input, so repeated calls on the same object
/// and input return equal results.
pub proof fn lemma_eval_deterministic(
    o: &WildcardObfuscation,
    inp: Seq<char>,
    r1: Result<usize, ObfError>,
    r2: Result<usize, ObfError>,
)
    requires
        inp.len() == o.n(),
        valid_input(inp),
        eval_rows_ok(o.h_val(), inp, o.q_val(), o.p_val()),
        r1 == Ok::<usize, ObfError>(eval_value(o.h_val(), inp, o.q_val(), o.p_val()) as usize),
        r2 == Ok::<usize, ObfError>(eval_value(o.h_val(), inp, o.q_val(), o.p_val()) as usize),
    ensures
        r1 == r2,
{
}



/// The matching-side guarantee, machine-checked at pattern length one: if
/// the single-row matrix encodes the pattern and the input matches it, the
/// selected entry is a genuine encoding of the zero polynomial, the
/// reconstruction exponent is 1, and evaluation lands on the identity, so
/// the result is 1.
pub proof fn lemma_matching_single_position(
    pat: Seq<char>,
    cs: Seq<int>,
    h: Seq<(int, int)>,
    inp: Seq<char>,
    q: int,
    p: int,
)
    requires
        pat.len() == 1,
        inp.len() == 1,
        valid_input(inp),
        pattern_matches(pat, inp),
        q >= 2,
        p == 2 * q + 1,
        encodes(pat, cs, p, h),
    ensures
        eval_rows_ok(h, inp, q, p),
        eval_value(h, inp, q, p) == 1,
{
    // the selected entry is a real encoding of F, and F is the zero
    // polynomial: no coefficients
    assert(cs.len() == 0);
    assert(poly_at(cs, point_spec(0, 0)) == 0);
    assert(poly_at(cs, point_spec(0, 1)) == 0);
    assert(row_encodes(pat, cs, p, h[0], 0));
    assert(char_matches(pat[0], inp[0]));
    vstd::arithmetic::power::lemma_pow0(2);
    vstd::arithmetic::div_mod::lemma_small_mod(1nat, p as nat);
    assert(sel_entry(h, inp, 0) == 1) by {
        if inp[0] == '0' {
            assert(bit_at(inp, 0) == 0);
            assert(pat[0] == '0' || pat[0] == '*');
            assert(h[0].0 == pow(2, 0) % p);
        } else {
            assert(bit_at(inp, 0) == 1);
            assert(pat[0] == '1' || pat[0] == '*');
            assert(h[0].1 == pow(2, 0) % p);
        }
    }
    // both Lagrange products are empty
    assert(num_prefix(0, inp, 0) == 1);
    assert(den_prefix(0, inp, 0) == 1);
    assert(lag_num(0, inp) == 1);
    assert(lag_den(0, inp) == 1);
    assert(is_gcd(1, 1, 1)) by {
        assert(1int == 1int * 1int);
    }
    lemma_gcd_of_is(1, 1, 1);
    assert(norm_num(0, inp) == 1);
    assert(norm_den(0, inp) == 1);
    // the reconstruction exponent is 1 * 1^-1 mod q == 1
    vstd::arithmetic::div_mod::lemma_small_mod(1nat, q as nat);
    assert((1int * 1int) % q == 1);
    lemma_inv_mod_is(1, q, 1);
    assert(row_invertible(0, inp, q));
    assert(row_exp(0, inp, q) == 1);
    assert(row_ok(h, inp, 0, q, p));
    assert(eval_rows_ok(h, inp, q, p));
    // the single factor is the entry itself, which is the identity
    vstd::arithmetic::power::lemma_pow1(sel_entry(h, inp, 0));
    assert(row_val(h, inp, 0, q, p) == 1int % p);
    assert(acc_prefix(h, inp, q, p, 1) == (acc_prefix(h, inp, q, p, 0) * row_val(
        h,
        inp,
        0,
        q,
        p,
    )) % p);
    assert(acc_prefix(h, inp, q, p, 1) == 1);
    assert(eval_value(h, inp, q, p) == 1);
}

} // verus!
