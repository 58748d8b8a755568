use wildcard_obf::protocol::point;
use wildcard_obf::protocol::ObfError;
use wildcard_obf::protocol::WildcardObfuscation;

/// Trial-division primality, adequate for the small toy levels used here.
fn is_prime_u64(n: u64) -> bool {
    if n < 2 {
        return false;
    }
    let mut d: u64 = 2;
    while d * d <= n {
        if n % d == 0 {
            return false;
        }
        d += 1;
    }
    true
}

#[test]
fn point_values_and_distinctness() {
    assert_eq!(point(0, 0), 2);
    assert_eq!(point(0, 1), 3);
    assert_eq!(point(4, 1), 11);
    let mut seen: Vec<i32> = Vec::new();
    for i in 0..50 {
        for j in 0..2 {
            let v = point(i, j);
            assert!(v > 0);
            assert!(!seen.contains(&v));
            seen.push(v);
        }
    }
}

#[test]
fn scenario_level80() {
    let obj = match WildcardObfuscation::encode("1*0", 80) {
        Ok(o) => o,
        Err(_) => panic!("construction must succeed on a valid pattern"),
    };
    assert_eq!(obj.eval("110"), Ok(1));
    assert_eq!(obj.eval("100"), Ok(1));
    assert_eq!(obj.eval("111"), Ok(0));
}

#[test]
fn matching_inputs_level128() {
    let obj = WildcardObfuscation::encode("10*1", 128).ok().unwrap();
    assert_eq!(obj.eval("1001"), Ok(1));
    assert_eq!(obj.eval("1011"), Ok(1));
    assert_eq!(obj.eval("0001"), Ok(0));
    assert_eq!(obj.eval("1000"), Ok(0));
    assert_eq!(obj.eval("1111"), Ok(0));
}

#[test]
fn all_wildcards_match_level128() {
    let obj = WildcardObfuscation::encode("****", 128).ok().unwrap();
    for v in 0..16 {
        let s = format!("{:04b}", v);
        assert_eq!(obj.eval(&s), Ok(1));
    }
}

#[test]
fn wrong_length_and_nonbinary_rejected() {
    let obj = WildcardObfuscation::encode("1*0", 80).ok().unwrap();
    assert_eq!(obj.eval("11"), Err(ObfError::Precondition));
    assert_eq!(obj.eval("1100"), Err(ObfError::Precondition));
    assert_eq!(obj.eval(""), Err(ObfError::Precondition));
    assert_eq!(obj.eval("1a0"), Err(ObfError::Precondition));
    assert_eq!(obj.eval("1*0"), Err(ObfError::Precondition));
}

#[test]
fn repeated_eval_is_stable() {
    let obj = WildcardObfuscation::encode("0*1", 128).ok().unwrap();
    for _ in 0..5 {
        assert_eq!(obj.eval("011"), Ok(1));
    }
    let first = obj.eval("110");
    for _ in 0..5 {
        assert_eq!(obj.eval("110"), first);
    }
}

#[test]
fn mismatches_rejected_level80() {
    let obj = WildcardObfuscation::encode("1*0", 80).ok().unwrap();
    assert_eq!(obj.eval("011"), Ok(0));
    assert_eq!(obj.eval("001"), Ok(0));
    assert_eq!(obj.eval("010"), Ok(0));
}

#[test]
fn empty_and_malformed_patterns_rejected() {
    assert!(matches!(WildcardObfuscation::encode("", 80), Err(ObfError::Precondition)));
    assert!(matches!(WildcardObfuscation::encode("1x0", 80), Err(ObfError::Precondition)));
    assert!(matches!(WildcardObfuscation::encode("12*", 80), Err(ObfError::Precondition)));
}

#[test]
fn fixed_parameters_levels_80_and_128() {
    let a = WildcardObfuscation::encode("1*0", 80).ok().unwrap();
    assert_eq!(a.p_decimal(), "2417851639229258349415043");
    assert_eq!(a.q_decimal(), "1208925819614629174707521");
    let b = WildcardObfuscation::encode("01", 80).ok().unwrap();
    assert_eq!(b.p_decimal(), a.p_decimal());
    assert_eq!(b.q_decimal(), a.q_decimal());
    let c = WildcardObfuscation::encode("1", 128).ok().unwrap();
    assert_eq!(c.p_decimal(), "680564733841876926926749214863536439727");
    assert_eq!(c.q_decimal(), "340282366920938463463374607431768219863");
    // the level-128 pair passes the generator validation; the level-80
    // pair is the known anomaly and fails it
    assert!(c.generator_validated());
    assert!(!a.generator_validated());
    // q divides p-1 for the precomputed pairs, checked in exact arithmetic
    let p: num::BigInt = c.p_decimal().parse().unwrap();
    let q: num::BigInt = c.q_decimal().parse().unwrap();
    assert_eq!(p - 1, q * 2);
}

#[test]
fn generated_parameters_small_level() {
    let obj = WildcardObfuscation::encode("*", 10).ok().unwrap();
    let p: u64 = obj.p_decimal().parse().unwrap();
    let q: u64 = obj.q_decimal().parse().unwrap();
    assert_eq!(p, 2 * q + 1);
    assert!(is_prime_u64(p));
    assert!(is_prime_u64(q));
    assert!(q >= 2);
    assert!(q > 1 << 8);
    assert!(obj.generator_validated());
    // a one-position wildcard pattern matches both inputs
    assert_eq!(obj.eval("0"), Ok(1));
    assert_eq!(obj.eval("1"), Ok(1));
}

#[test]
fn arithmetic_impossibility_surfaces() {
    // The only 5-bit safe-prime pair is p = 23, q = 11, so construction at
    // level 5 is deterministic, and an input whose Lagrange denominator
    // keeps a factor of 11 after reduction cannot be inverted mod q.
    let obj = WildcardObfuscation::encode("******", 5).ok().unwrap();
    assert_eq!(obj.q_decimal(), "11");
    assert_eq!(obj.p_decimal(), "23");
    assert_eq!(obj.eval("000001"), Err(ObfError::Arithmetic));
    // inputs whose denominators stay clear of 11 evaluate exactly
    assert_eq!(obj.eval("000000"), Ok(1));
}

#[test]
fn smallest_generated_level_is_validated() {
    // at level 3 the search floor is 2, and (p, q) = (7, 3) is the only
    // safe-prime pair whose base 2 passes the generator validation
    let obj = WildcardObfuscation::encode("*", 3).ok().unwrap();
    assert_eq!(obj.p_decimal(), "7");
    assert_eq!(obj.q_decimal(), "3");
    assert!(obj.generator_validated());
    assert_eq!(obj.eval("0"), Ok(1));
    assert_eq!(obj.eval("1"), Ok(1));
}
