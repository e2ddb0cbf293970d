use kybe_rs::{kyber1024pke, kyber512pke, kyber768pke, ByteArray, KyberError};

#[test]
fn pke_keygen_cpapke_512() {
    let pke = kyber512pke();
    pke.keygen().unwrap();
}

#[test]
fn pke_keygen_cpapke_768() {
    let pke = kyber768pke();
    pke.keygen().unwrap();
}

#[test]
fn pke_keygen_cpapke_1024() {
    let pke = kyber1024pke();
    pke.keygen().unwrap();
}

#[test]
fn pke_keygen_cpapke() {
    let pke = kyber512pke();
    pke.keygen().unwrap();
}

#[test]
fn encrypt_then_decrypt_cpapke_512() {
    let pke = kyber512pke();
    let (sk, pk) = pke.keygen().unwrap();

    let m = ByteArray::random(32);
    let r = ByteArray::random(32);

    let enc = pke.encrypt(&pk, &m, r).unwrap();
    let dec = pke.decrypt(&sk, &enc).unwrap();

    assert_eq!(m, dec);
}

#[test]
fn encrypt_then_decrypt_cpapke_768() {
    let pke = kyber768pke();
    let (sk, pk) = pke.keygen().unwrap();

    let m = ByteArray::random(32);
    let r = ByteArray::random(32);

    let enc = pke.encrypt(&pk, &m, r).unwrap();
    let dec = pke.decrypt(&sk, &enc).unwrap();

    assert_eq!(m, dec);
}

#[test]
fn encrypt_then_decrypt_cpapke_1024() {
    let pke = kyber1024pke();
    let (sk, pk) = pke.keygen().unwrap();

    let m = ByteArray::random(32);
    let r = ByteArray::random(32);

    let enc = pke.encrypt(&pk, &m, r).unwrap();
    let dec = pke.decrypt(&sk, &enc).unwrap();

    assert_eq!(m, dec);
}

#[test]
fn encrypt_then_decrypt_cpapke() {
    let pke = kyber512pke();
    let (sk, pk) = pke.keygen().unwrap();

    let m = ByteArray::random(32);
    let r = ByteArray::random(32);

    let enc = pke.encrypt(&pk, &m, r).unwrap();
    let dec = pke.decrypt(&sk, &enc).unwrap();

    assert_eq!(m, dec);
}

#[test]
fn keygen_is_deterministic_per_seed() {
    // The same 32-byte seed always yields byte-identical keys; another
    // seed yields different ones.
    let pke = kyber768pke();
    let d = ByteArray::from_bytes(&[7u8; 32]);
    let (sk1, pk1) = pke.keygen_seeded(&d).unwrap();
    let (sk2, pk2) = pke.keygen_seeded(&d).unwrap();
    assert_eq!(sk1, sk2);
    assert_eq!(pk1, pk2);

    let d2 = ByteArray::from_bytes(&[8u8; 32]);
    let (_, pk3) = pke.keygen_seeded(&d2).unwrap();
    assert_ne!(pk1, pk3);
}

#[test]
fn encrypt_rejects_bad_message_length() {
    let pke = kyber512pke();
    let (_, pk) = pke.keygen().unwrap();
    let m = ByteArray::random(31);
    let r = ByteArray::random(32);
    assert_eq!(pke.encrypt(&pk, &m, r), Err(KyberError::InvalidMessageLength));

    let m = ByteArray::random(32);
    let r = ByteArray::random(33);
    assert_eq!(pke.encrypt(&pk, &m, r), Err(KyberError::InvalidMessageLength));
}

#[test]
fn encrypt_rejects_bad_key_length() {
    let pke = kyber512pke();
    let (_, pk) = pke.keygen().unwrap();
    let short = pk.truncate(pk.data.len() - 1);
    let m = ByteArray::random(32);
    let r = ByteArray::random(32);
    assert_eq!(pke.encrypt(&short, &m, r), Err(KyberError::InvalidLength));
}

#[test]
fn decrypt_rejects_bad_lengths() {
    let pke = kyber512pke();
    let (sk, pk) = pke.keygen().unwrap();
    let m = ByteArray::random(32);
    let r = ByteArray::random(32);
    let enc = pke.encrypt(&pk, &m, r).unwrap();

    let long = enc.append(&ByteArray::from_bytes(&[0]));
    assert_eq!(pke.decrypt(&sk, &long), Err(KyberError::InvalidLength));

    let short_sk = sk.truncate(sk.data.len() - 1);
    assert_eq!(pke.decrypt(&short_sk, &enc), Err(KyberError::InvalidLength));
}

#[test]
fn pke_byte_sizes_are_canonical() {
    let pke512 = kyber512pke();
    let (sk, pk) = pke512.keygen().unwrap();
    assert_eq!(sk.data.len(), 768);
    assert_eq!(pk.data.len(), 800);
    let m = ByteArray::random(32);
    let r = ByteArray::random(32);
    let ct = pke512.encrypt(&pk, &m, r).unwrap();
    assert_eq!(ct.data.len(), 768);

    let pke768 = kyber768pke();
    let (sk, pk) = pke768.keygen().unwrap();
    assert_eq!(sk.data.len(), 1152);
    assert_eq!(pk.data.len(), 1184);
    let m = ByteArray::random(32);
    let r = ByteArray::random(32);
    let ct = pke768.encrypt(&pk, &m, r).unwrap();
    assert_eq!(ct.data.len(), 1088);

    let pke1024 = kyber1024pke();
    let (sk, pk) = pke1024.keygen().unwrap();
    assert_eq!(sk.data.len(), 1536);
    assert_eq!(pk.data.len(), 1568);
    let m = ByteArray::random(32);
    let r = ByteArray::random(32);
    let ct = pke1024.encrypt(&pk, &m, r).unwrap();
    assert_eq!(ct.data.len(), 1568);
}
