use iot_auth::crypto::encrypt_aes_cbc;
use iot_auth::secure_store::{encrypted_buf_len, DeviceKeyStore, Error, CIPHERTEXT_BUF_LEN, PLAINTEXT_BUF_LEN};

fn keys(n: usize) -> Vec<[u8; 32]> {
    (0..n).map(|i| {
        let mut k = [0u8; 32];
        for (j, b) in k.iter_mut().enumerate() {
            *b = (i * 31 + j * 7) as u8;
        }
        k
    }).collect()
}

#[test]
fn empty_store_is_not_initialized() {
    let s = DeviceKeyStore::init([1u8; 32]);
    assert_eq!(s.get_keys().err(), Some(Error::NotInitialized));
    assert_eq!(s.stored_count(), None);
}

#[test]
fn read_gives_back_what_was_stored() {
    let mut s = DeviceKeyStore::init([1u8; 32]);
    let ks = keys(5);
    assert_eq!(s.store_keys(&ks, 5, &[3u8; 16]), Ok(()));
    assert_eq!(s.get_keys().unwrap().as_slice(), &ks[..]);
    // only the first key_count keys are kept
    assert_eq!(s.store_keys(&ks, 2, &[4u8; 16]), Ok(()));
    assert_eq!(s.get_keys().unwrap().as_slice(), &ks[..2]);
    // no keys at all is still a stored state
    assert_eq!(s.store_keys(&ks, 0, &[5u8; 16]), Ok(()));
    assert_eq!(s.get_keys().unwrap().len(), 0);
}

#[test]
fn large_store_roundtrip() {
    let mut s = DeviceKeyStore::init([9u8; 32]);
    let ks = keys(1023);
    assert_eq!(s.store_keys(&ks, 1023, &[0u8; 16]), Ok(()));
    assert_eq!(s.get_keys().unwrap().as_slice(), &ks[..]);
}

#[test]
fn too_many_keys_are_refused() {
    let mut s = DeviceKeyStore::init([1u8; 32]);
    let ks = keys(3);
    s.store_keys(&ks, 3, &[0u8; 16]).unwrap();
    assert_eq!(s.store_keys(&[], 1025, &[0u8; 16]), Err(Error::TooManyKeys));
    assert_eq!(s.get_keys().unwrap().as_slice(), &ks[..]);
}

#[test]
fn encrypted_lengths() {
    assert_eq!(encrypted_buf_len(0), 32);
    assert_eq!(encrypted_buf_len(15), 32);
    assert_eq!(encrypted_buf_len(16), 48);
    assert_eq!(encrypted_buf_len(PLAINTEXT_BUF_LEN), CIPHERTEXT_BUF_LEN);
    assert_eq!(CIPHERTEXT_BUF_LEN, 32800);
    assert_eq!(encrypted_buf_len(usize::MAX - 32), usize::MAX - 15);
}

#[test]
fn the_store_seals_under_its_secret_with_the_given_iv() {
    let ks = keys(2);
    let mut a = DeviceKeyStore::init([1u8; 32]);
    assert!(a.ciphertext().is_empty());
    a.store_keys(&ks, 2, &[6u8; 16]).unwrap();
    let flat: Vec<u8> = ks.iter().flat_map(|k| k.iter().copied()).collect();
    let mut want = vec![0u8; 16 + 80];
    let n = encrypt_aes_cbc(&[6u8; 16], &[1u8; 32], &flat, &mut want);
    assert_eq!(a.ciphertext(), &want[..n]);
    // another secret or IV gives another ciphertext
    let mut b = DeviceKeyStore::init([2u8; 32]);
    b.store_keys(&ks, 2, &[6u8; 16]).unwrap();
    assert_ne!(a.ciphertext(), b.ciphertext());
    b.store_keys(&ks, 2, &[7u8; 16]).unwrap();
    assert_eq!(&b.ciphertext()[..16], &[7u8; 16]);
}
