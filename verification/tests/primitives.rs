use kybe_rs::bytearray::ByteArray;
use kybe_rs::hash::{sha3_512, shake_128, shake_256};
use kybe_rs::params::KyberParams;
use kybe_rs::primefield::PrimeField3329;
use kybe_rs::utils::h;

#[test]
fn field_arithmetic_is_mod_q() {
    let a = PrimeField3329::from_int(3000);
    let b = PrimeField3329::from_int(400);
    assert_eq!(a.add(&b).to_int(), 71);
    assert_eq!(a.sub(&b).to_int(), 2600);
    assert_eq!(b.sub(&a).to_int(), 729);
    assert_eq!(a.mul(&b).to_int(), (3000 * 400) % 3329);
    assert_eq!(a.neg().to_int(), 329);
    assert_eq!(PrimeField3329::from_int(-1).to_int(), 3328);
    assert_eq!(PrimeField3329::from_int(3329).to_int(), 0);
}

#[test]
fn field_inverse_by_fermat() {
    for x in [1i64, 2, 17, 128, 3303, 3328] {
        let f = PrimeField3329::from_int(x);
        let inv = f.inv().unwrap();
        assert_eq!(f.mul(&inv).to_int(), 1);
    }
    assert!(PrimeField3329::from_int(0).inv().is_none());
    let a = PrimeField3329::from_int(10);
    let b = PrimeField3329::from_int(5);
    assert_eq!(a.div(&b).unwrap().to_int(), 2);
}

#[test]
fn bytearray_operations() {
    let a = ByteArray::from_bytes(&[1, 2, 3]);
    let b = ByteArray::from_bytes(&[4, 5]);
    let joined = a.append(&b);
    assert_eq!(joined.data, vec![1, 2, 3, 4, 5]);

    let joined2 = ByteArray::concat(&[&a, &b, &a]);
    assert_eq!(joined2.data, vec![1, 2, 3, 4, 5, 1, 2, 3]);

    let (head, tail) = joined.split_at(2);
    assert_eq!(head.data, vec![1, 2]);
    assert_eq!(tail.data, vec![3, 4, 5]);

    assert_eq!(joined.truncate(4).data, vec![1, 2, 3, 4]);
    assert_eq!(joined.truncate(9).data, vec![1, 2, 3, 4, 5]);
    assert_eq!(joined.skip(3).data, vec![4, 5]);
    assert_eq!(joined.skip(9).data, Vec::<u8>::new());

    // 0x06 = 0b00000110: bits 1 and 2 are set, little-endian in a byte.
    let bits = ByteArray::from_bytes(&[0x06]);
    assert!(!bits.get_bit(0));
    assert!(bits.get_bit(1));
    assert!(bits.get_bit(2));
    assert!(!bits.get_bit(3));
}

#[test]
fn random_draws_fresh_bytes() {
    let a = ByteArray::random(32);
    let b = ByteArray::random(32);
    assert_eq!(a.data.len(), 32);
    assert_eq!(b.data.len(), 32);
    assert_ne!(a, b);
}

#[test]
fn sha3_256_known_answer() {
    // SHA3-256("abc") from the NIST test vectors.
    let expected: [u8; 32] = [
        0x3a, 0x98, 0x5d, 0xa7, 0x4f, 0xe2, 0x25, 0xb2, 0x04, 0x5c, 0x17, 0x2d, 0x6b, 0xd3,
        0x90, 0xbd, 0x85, 0x5f, 0x08, 0x6e, 0x3e, 0x9d, 0x52, 0x5b, 0x46, 0xbf, 0xe2, 0x45,
        0x11, 0x43, 0x15, 0x32,
    ];
    let (h1, h2) = h(&ByteArray::from_bytes(b"abc"));
    let digest = h1.append(&h2);
    assert_eq!(digest.data, expected.to_vec());
}

#[test]
fn sha3_512_known_answer() {
    // The first bytes of SHA3-512("abc") from the NIST test vectors.
    let out = sha3_512(b"abc");
    assert_eq!(out.len(), 64);
    assert_eq!(&out[..8], &[0xb7, 0x51, 0x85, 0x0b, 0x1a, 0x57, 0x16, 0x8a]);
}

#[test]
fn shake_128_known_answer() {
    // The first ten bytes of SHAKE128("abc").
    let out = shake_128(b"abc", 10);
    assert_eq!(out, vec![0x58, 0x81, 0x09, 0x2d, 0xd8, 0x18, 0xbf, 0x5c, 0xf8, 0xa3]);
}

#[test]
fn shake_256_known_answer() {
    // The first bytes of SHAKE256 on the empty input.
    let out = shake_256(b"", 8);
    assert_eq!(out, vec![0x46, 0xb9, 0xdd, 0x2b, 0x0b, 0xa8, 0x8d, 0x13]);
}

#[test]
fn kyber512_parameters() {
    let p = KyberParams::kyber512();
    assert_eq!(p.n, 256);
    assert_eq!(p.k, 2);
    assert_eq!(p.q, 3329);
    assert_eq!(p.eta1, 3);
    assert_eq!(p.eta2, 2);
    assert_eq!(p.du, 10);
    assert_eq!(p.dv, 4);
    assert_eq!(p.pk_size, 800);
    assert_eq!(p.sk_size, 1632);
    assert_eq!(p.ct_size, 768);
}

#[test]
fn polynomial_degree_tracks_highest_nonzero() {
    let mut coeffs = vec![PrimeField3329::default(); 256];
    coeffs[5] = PrimeField3329::from_int(7);
    let p = kybe_rs::polynomial::Polynomial::from_vec(coeffs);
    assert_eq!(p.degree(), Some(5));
    assert!(!p.is_zero());

    let z = kybe_rs::polynomial::Polynomial::init();
    assert_eq!(z.degree(), None);
    assert!(z.is_zero());
}
