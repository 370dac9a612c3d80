use iot_auth::crypto::{decrypt_aes_cbc, encrypt_aes_cbc, hmac};

fn unhex(s: &str) -> Vec<u8> {
    (0..s.len()).step_by(2).map(|i| u8::from_str_radix(&s[i..i + 2], 16).unwrap()).collect()
}

#[test]
fn hmac_sha256_rfc4231_case_2() {
    let mut out = [0u8; 32];
    hmac(b"what do ya want for nothing?", b"Jefe", &mut out);
    assert_eq!(out.to_vec(), unhex("5bdcc146bf60754e6a042426089575c75a003f089d2739839dec58b964ec3843"));
}

#[test]
fn aes256_cbc_nist_vector() {
    let key: [u8; 32] = unhex("603deb1015ca71be2b73aef0857d77811f352c073b6108d72d9810a30914dff4").try_into().unwrap();
    let iv: [u8; 16] = unhex("000102030405060708090a0b0c0d0e0f").try_into().unwrap();
    let pt = unhex("6bc1bee22e409f96e93d7e117393172a");
    let mut out = [0xAAu8; 64];
    let n = encrypt_aes_cbc(&iv, &key, &pt, &mut out);
    assert_eq!(n, 16 + 32);
    assert_eq!(&out[..16], &iv[..]);
    assert_eq!(out[16..32].to_vec(), unhex("f58c4c04d6e5f1ba779eabfb5f7bfbd6"));
    assert!(out[n..].iter().all(|&b| b == 0xAA));
    let mut back = [0u8; 48];
    let m = decrypt_aes_cbc(&key, &out[..n], &mut back).unwrap();
    assert_eq!(&back[..m], &pt[..]);
}

#[test]
fn aes256_cbc_roundtrip_and_padding() {
    let key = [7u8; 32];
    let iv = [9u8; 16];
    for len in [0usize, 1, 15, 16, 17, 100] {
        let pt: Vec<u8> = (0..len).map(|i| i as u8).collect();
        let mut out = vec![0u8; 16 + (len / 16 + 1) * 16];
        let n = encrypt_aes_cbc(&iv, &key, &pt, &mut out);
        assert_eq!(n, out.len());
        if len > 0 {
            assert_ne!(&out[16..16 + len.min(16)], &pt[..len.min(16)]);
        }
        let mut back = vec![0u8; n - 16];
        let m = decrypt_aes_cbc(&key, &out, &mut back).unwrap();
        assert_eq!(&back[..m], &pt[..]);
    }
}

#[test]
fn aes256_cbc_wrong_key_or_length_fails() {
    let key = [7u8; 32];
    let iv = [9u8; 16];
    let mut out = [0u8; 32];
    let n = encrypt_aes_cbc(&iv, &key, b"0123456789", &mut out);
    let mut back = [0u8; 32];
    // a ciphertext that is not a whole number of blocks never unpads
    assert_eq!(decrypt_aes_cbc(&key, &out[..n - 1], &mut back), None);
    assert_eq!(back, [0u8; 32]);
    // an IV alone holds an empty ciphertext, which has no padding
    assert_eq!(decrypt_aes_cbc(&key, &out[..16], &mut back), None);
}
