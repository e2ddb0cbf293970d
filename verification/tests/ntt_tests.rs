use kybe_rs::ntt::{bcm, byte_rev, ntt, rev_ntt};
use kybe_rs::polynomial::Polynomial;
use kybe_rs::primefield::PrimeField3329;

fn poly_of(f: impl Fn(usize) -> i64) -> Polynomial {
    let mut coeffs = Vec::new();
    for i in 0..256 {
        coeffs.push(PrimeField3329::from_int(f(i)));
    }
    Polynomial::from_vec(coeffs)
}

#[test]
fn rev_then_ntt() {
    let u_bold = poly_of(|i| i as i64);
    let u = rev_ntt(&u_bold);
    assert!(u_bold == ntt(&u));
}

#[test]
fn ntt_then_rev() {
    let u = poly_of(|i| i as i64);
    let u_bold = ntt(&u);
    assert!(u == rev_ntt(&u_bold));
}

#[test]
fn byte_rev_is_a_seven_bit_reversal() {
    assert_eq!(byte_rev(0), 0);
    assert_eq!(byte_rev(1), 64);
    assert_eq!(byte_rev(64), 1);
    assert_eq!(byte_rev(127), 127);
    assert_eq!(byte_rev(0b0000011), 0b1100000);
    for i in 0..128 {
        assert_eq!(byte_rev(byte_rev(i)), i);
    }
}

#[test]
fn ntt_is_additive() {
    let a = poly_of(|i| (i as i64 * 7) % 3329);
    let b = poly_of(|i| (i as i64 * 31 + 5) % 3329);
    let lhs = ntt(&a.add(&b));
    let rhs = ntt(&a).add(&ntt(&b));
    assert!(lhs == rhs);
}

#[test]
fn ntt_commutes_with_scalar() {
    let a = poly_of(|i| (i as i64 * 11 + 3) % 3329);
    let c = PrimeField3329::from_int(1234);
    let lhs = ntt(&a.mulf(&c));
    let rhs = ntt(&a).mulf(&c);
    assert!(lhs == rhs);
}

#[test]
fn ntt_multiplication_matches_schoolbook() {
    // (1 + X) * (2 + X) = 2 + 3 X + X^2 in R_q; the product goes through
    // the NTT domain and back.
    let a = poly_of(|i| if i == 0 { 1 } else if i == 1 { 1 } else { 0 });
    let b = poly_of(|i| if i == 0 { 2 } else if i == 1 { 1 } else { 0 });
    let prod = rev_ntt(&bcm(&ntt(&a), &ntt(&b)));
    let expected = poly_of(|i| match i {
        0 => 2,
        1 => 3,
        2 => 1,
        _ => 0,
    });
    assert!(prod == expected);
}

#[test]
fn ntt_of_zero_is_zero() {
    let z = poly_of(|_| 0);
    assert!(ntt(&z) == z);
    assert!(rev_ntt(&z) == z);
}
