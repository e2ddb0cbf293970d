use kybe_rs::{kyber1024kem, kyber512kem, kyber768kem, ByteArray, KyberError};

#[test]
fn kem_keygen_ccakem_512() {
    let kem = kyber512kem();
    kem.keygen().unwrap();
}

#[test]
fn kem_keygen_ccakem_768() {
    let kem = kyber768kem();
    kem.keygen().unwrap();
}

#[test]
fn kem_keygen_ccakem_1024() {
    let kem = kyber1024kem();
    kem.keygen().unwrap();
}

#[test]
fn kem_keygen_ccakem() {
    let kem = kyber512kem();
    kem.keygen().unwrap();
}

#[test]
fn encapsulate_then_decapsulate_ccakem_512() {
    let kem = kyber512kem();

    let (sk, pk) = kem.keygen().unwrap();
    let (ctx, shk) = kem.encaps(&pk).unwrap();
    let shk2 = kem.decaps(&ctx, &sk).unwrap();
    assert_eq!(shk, shk2);
}

#[test]
fn encapsulate_then_decapsulate_ccakem_768() {
    let kem = kyber768kem();

    let (sk, pk) = kem.keygen().unwrap();
    let (ctx, shk) = kem.encaps(&pk).unwrap();
    let shk2 = kem.decaps(&ctx, &sk).unwrap();
    assert_eq!(shk, shk2);
}

#[test]
fn encapsulate_then_decapsulate_ccakem_1024() {
    let kem = kyber1024kem();

    let (sk, pk) = kem.keygen().unwrap();
    let (ctx, shk) = kem.encaps(&pk).unwrap();
    let shk2 = kem.decaps(&ctx, &sk).unwrap();
    assert_eq!(shk, shk2);
}

#[test]
fn encapsulate_then_decapsulate_ccakem() {
    let kem = kyber512kem();

    let (sk, pk) = kem.keygen().unwrap();
    let (ctx, shk) = kem.encaps(&pk).unwrap();
    let shk2 = kem.decaps(&ctx, &sk).unwrap();
    assert_eq!(shk, shk2);
}

#[test]
fn shared_keys_are_32_bytes() {
    let kem = kyber768kem();
    let (sk, pk) = kem.keygen().unwrap();
    let (ctx, shk) = kem.encaps(&pk).unwrap();
    let shk2 = kem.decaps(&ctx, &sk).unwrap();
    assert_eq!(shk.data.len(), 32);
    assert_eq!(shk2.data.len(), 32);
}

#[test]
fn tampered_ciphertext_yields_a_different_key() {
    // Implicit rejection: flipping one byte of the ciphertext makes
    // decapsulation return a key unrelated to the encapsulated one, and
    // nothing panics.
    let kem = kyber768kem();
    let (sk, pk) = kem.keygen().unwrap();
    let (ctx, shk) = kem.encaps(&pk).unwrap();

    let mut data = ctx.data.clone();
    data[0] ^= 0xff;
    let tampered = ByteArray { data };

    let shk2 = kem.decaps(&tampered, &sk).unwrap();
    assert_eq!(shk2.data.len(), 32);
    assert_ne!(shk, shk2);
}

#[test]
fn encaps_rejects_wrong_length_public_key() {
    let kem = kyber768kem();
    let (_, pk) = kem.keygen().unwrap();
    let short = pk.truncate(pk.data.len() - 1);
    assert_eq!(kem.encaps(&short), Err(KyberError::InvalidLength));
}

#[test]
fn decaps_rejects_wrong_length_inputs() {
    let kem = kyber768kem();
    let (sk, pk) = kem.keygen().unwrap();
    let (ctx, _) = kem.encaps(&pk).unwrap();

    let long = ctx.append(&ByteArray::from_bytes(&[0]));
    assert_eq!(kem.decaps(&long, &sk), Err(KyberError::InvalidLength));

    let short_sk = sk.truncate(sk.data.len() - 1);
    assert_eq!(kem.decaps(&ctx, &short_sk), Err(KyberError::InvalidLength));
}

#[test]
fn kem_byte_sizes_are_canonical() {
    let kem = kyber512kem();
    let (sk, pk) = kem.keygen().unwrap();
    assert_eq!(sk.data.len(), 1632);
    assert_eq!(pk.data.len(), 800);
    let (ctx, _) = kem.encaps(&pk).unwrap();
    assert_eq!(ctx.data.len(), 768);

    let kem = kyber1024kem();
    let (sk, pk) = kem.keygen().unwrap();
    assert_eq!(sk.data.len(), 3168);
    assert_eq!(pk.data.len(), 1568);
    let (ctx, _) = kem.encaps(&pk).unwrap();
    assert_eq!(ctx.data.len(), 1568);
}
