use kybe_rs::compress::{compress_integer, compress_poly, decompress_integer, decompress_poly};
use kybe_rs::encode::{decode_to_poly, encode_poly};
use kybe_rs::polynomial::Polynomial;
use kybe_rs::primefield::PrimeField3329;

fn zero_poly() -> Polynomial {
    Polynomial::from_vec(vec![PrimeField3329::default(); 256])
}

fn poly_of(f: impl Fn(usize) -> i64) -> Polynomial {
    let mut coeffs = Vec::new();
    for i in 0..256 {
        coeffs.push(PrimeField3329::from_int(f(i)));
    }
    Polynomial::from_vec(coeffs)
}

#[test]
fn compress_compress_decompress_poly() {
    let original = zero_poly();
    let encoded = compress_poly(original.clone(), 12, 3329);
    let decoded = decompress_poly(encoded, 12, 3329);
    assert!(decoded == original);
}

#[test]
fn encode_encode_decode_poly() {
    let original = zero_poly();
    let encoded = encode_poly(original.clone(), 12);
    let decoded = decode_to_poly(encoded, 12);
    assert!(decoded == original);
}

#[test]
fn integration_test_compress_decompress_poly() {
    let original = zero_poly();
    let encoded = compress_poly(original.clone(), 12, 3329);
    let decoded = decompress_poly(encoded, 12, 3329);
    assert!(decoded == original);
}

#[test]
fn integration_test_encode_decode_poly() {
    let original = zero_poly();
    let encoded = encode_poly(original.clone(), 12);
    let decoded = decode_to_poly(encoded, 12);
    assert!(decoded == original);
}

#[test]
fn encode_decode_round_trip_all_widths() {
    for ell in [1usize, 4, 5, 10, 11, 12] {
        let mask = (1i64 << ell) - 1;
        let original = poly_of(|i| ((i as i64) * 13 % 3329) & mask);
        let encoded = encode_poly(original.clone(), ell);
        let decoded = decode_to_poly(encoded, ell);
        assert!(decoded == original, "round trip failed for width {}", ell);
    }
}

#[test]
fn encode_poly_exact_bytes() {
    // Coefficient 0 is 1 and coefficient 255 is 2: with one bit per
    // coefficient, the first byte is 0x01 and the last byte is zero
    // because 2 has its low bit clear.
    let p = poly_of(|i| if i == 0 { 1 } else if i == 255 { 2 } else { 0 });
    let encoded = encode_poly(p, 1);
    assert_eq!(encoded.data.len(), 32);
    assert_eq!(encoded.data[0], 0x01);
    assert_eq!(encoded.data[31], 0x00);
}

#[test]
fn compress_integer_exact_values() {
    // compress(100, 10) = round(100 * 1024 / 3329) = 31, and
    // decompress(31, 10) = round(31 * 3329 / 1024) = 101.
    assert_eq!(compress_integer(100, 10, 3329), 31);
    assert_eq!(decompress_integer(31, 10, 3329), 101);
    assert_eq!(compress_integer(0, 10, 3329), 0);
    assert_eq!(decompress_integer(0, 10, 3329), 0);
    // Near q the single-bit compression wraps to zero.
    assert_eq!(compress_integer(3328, 1, 3329), 0);
    assert_eq!(decompress_integer(1, 1, 3329), 1665);
}

#[test]
fn compress_decompress_bound_exhaustive() {
    // The decompressed value stays within ceil(q / 2^(d+1)) of the
    // original in the centered metric mod q, for every x and every width
    // the scheme uses.
    for d in [1usize, 4, 5, 10, 11] {
        let bound = (3329 + (1 << (d + 1)) - 1) / (1 << (d + 1));
        for x in 0..3329usize {
            let y = decompress_integer(compress_integer(x, d, 3329), d, 3329);
            let diff = if y >= x { y - x } else { x - y };
            let centered = diff.min(3329 - diff);
            assert!(
                centered <= bound,
                "x = {}, d = {}, y = {}, centered = {}, bound = {}",
                x, d, y, centered, bound
            );
        }
    }
}
