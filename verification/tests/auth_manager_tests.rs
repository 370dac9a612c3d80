use iot_auth::auth_manager::{u64_from_be_bytes, u64_to_be_bytes, AuthError, AuthManager};
use iot_auth::crypto::{decrypt_aes_cbc, encrypt_aes_cbc, hmac};
use iot_auth::secure_store::{DeviceKeyStore, Error};

fn keys(n: usize) -> Vec<[u8; 32]> {
    (0..n)
        .map(|i| {
            let mut k = [0u8; 32];
            for (j, b) in k.iter_mut().enumerate() {
                *b = (i * 53 + j * 3 + 1) as u8;
            }
            k
        })
        .collect()
}

fn xor_keys(ks: &[[u8; 32]], idx: &[u8]) -> [u8; 32] {
    let mut k = [0u8; 32];
    for &i in idx {
        for j in 0..32 {
            k[j] ^= ks[i as usize][j];
        }
    }
    k
}

fn manager(n: usize, p: u8) -> (AuthManager, Vec<[u8; 32]>) {
    let ks = keys(n);
    let mut store = DeviceKeyStore::init([0x5Au8; 32]);
    store.store_keys(&ks, n, &[1u8; 16]).unwrap();
    (AuthManager::new(store, 7, p), ks)
}

const R1: [u8; 8] = [1, 2, 3, 4, 5, 6, 7, 8];
const T1: [u8; 8] = [0x10, 0x20, 0x30, 0x40, 0x50, 0x60, 0x70, 0x80];
const R2: [u8; 8] = [9, 9, 8, 8, 7, 7, 6, 6];
const T2: [u8; 8] = [0xA1, 0xB2, 0xC3, 0xD4, 0xE5, 0xF6, 0x07, 0x18];

/// Runs the device side up to M3 with C1 = [0, 3]; C2 comes out as [1, 2].
fn run_to_m3(m: &mut AuthManager) -> Vec<u8> {
    let mut m2 = vec![0u8, 3];
    m2.extend_from_slice(&R1);
    m.process_m2(&m2).unwrap();
    m.start_c2_selection(T1).unwrap();
    let draws = [[0u8, 1], [0, 6], [0, 1], [1, 0]]; // 1, 6 % 5 = 1 (repeat), 1, 256 % 5 = 1 ...
    let mut k = 0;
    while !m.c2_complete() {
        let d = if k < draws.len() { draws[k] } else { [0, 7] }; // 7 % 5 = 2
        m.offer_c2_draw(d);
        k += 1;
    }
    m.build_m3(R2, &[0x33u8; 16])
}

fn server_m4(ks: &[[u8; 32]], c2: &[u8], t1: [u8; 8], body: &[u8]) -> Vec<u8> {
    let k2 = xor_keys(ks, c2);
    let mut key = [0u8; 32];
    for i in 0..32 {
        key[i] = k2[i] ^ t1[i % 8];
    }
    let mut out = vec![0u8; 16 + (body.len() / 16 + 1) * 16];
    let n = encrypt_aes_cbc(&[0x44u8; 16], &key, body, &mut out);
    out.truncate(n);
    out
}

#[test]
fn m1_carries_the_device_id() {
    let (m, _) = manager(3, 2);
    assert_eq!(m.m1_payload(), vec![7]);
}

#[test]
fn full_handshake_establishes_the_session_key() {
    let (mut m, ks) = manager(5, 2);
    let m3 = run_to_m3(&mut m);
    // the server decrypts M3 with K1
    let k1 = xor_keys(&ks, &[0, 3]);
    assert_eq!(&m3[..16], &[0x33u8; 16]);
    let mut buf = vec![0u8; m3.len()];
    let n = decrypt_aes_cbc(&k1, &m3, &mut buf).unwrap();
    let pt = &buf[..n];
    assert_eq!(&pt[..8], &R1);
    assert_eq!(&pt[8..16], &T1);
    assert_eq!(&pt[16..18], &[1, 2]);
    assert_eq!(&pt[18..26], &R2);
    assert_eq!(n, 26);
    // the server answers with M4 = Enc(K2 ^ t1, r2 || t2)
    let mut body = R2.to_vec();
    body.extend_from_slice(&T2);
    let m4 = server_m4(&ks, &[1, 2], T1, &body);
    assert!(!m.has_session_key());
    assert_eq!(m.process_m4(&m4), Ok(()));
    assert!(m.has_session_key());
    // telemetry is encrypted under t1 ^ t2 spread over 32 bytes
    let mut sess = [0u8; 32];
    for i in 0..32 {
        sess[i] = T1[i % 8] ^ T2[i % 8];
    }
    let msg = m.send_telemetry(&42u64.to_be_bytes(), &[0x77u8; 16]).unwrap();
    assert_eq!(msg.len(), 32);
    let mut back = vec![0u8; msg.len()];
    let n = decrypt_aes_cbc(&sess, &msg, &mut back).unwrap();
    assert_eq!(&back[..n], &42u64.to_be_bytes());
}

#[test]
fn m2_errors() {
    let (mut m, _) = manager(5, 2);
    assert_eq!(m.process_m2(&[0, 1, 2, 3, 4, 5, 6, 7, 8]), Err(AuthError::M2TooShort));
    let mut m2 = vec![0u8, 5];
    m2.extend_from_slice(&R1);
    assert_eq!(m.process_m2(&m2), Err(AuthError::C1IndexOutOfRange));
    let empty_store = DeviceKeyStore::init([0u8; 32]);
    let mut m = AuthManager::new(empty_store, 1, 2);
    assert_eq!(m.process_m2(&m2), Err(AuthError::KeysUnavailable));
    let mut store = DeviceKeyStore::init([0u8; 32]);
    store.store_keys(&[], 0, &[0u8; 16]).unwrap();
    let mut m = AuthManager::new(store, 1, 2);
    assert_eq!(m.process_m2(&m2), Err(AuthError::NoKeys));
}

#[test]
fn p_larger_than_key_count_stops_m3() {
    let (mut m, _) = manager(2, 3);
    let mut m2 = vec![0u8, 1, 0];
    m2.extend_from_slice(&R1);
    m.process_m2(&m2).unwrap();
    assert_eq!(m.start_c2_selection(T1), Err(AuthError::TooFewKeysForC2));
}

#[test]
fn m4_errors() {
    let (mut m, ks) = manager(5, 2);
    // before any C2 has been chosen
    assert_eq!(m.m4_key().err(), Some(AuthError::NoC2));
    assert_eq!(m.accept_m4_plaintext(&[0u8; 16]), Err(AuthError::T1Missing));
    run_to_m3(&mut m);
    // a plaintext too short
    assert_eq!(m.accept_m4_plaintext(&[0u8; 15]), Err(AuthError::M4TooShort));
    // a wrong r2
    let mut body = [0u8; 16].to_vec();
    body[0] = 1;
    let m4 = server_m4(&ks, &[1, 2], T1, &body);
    assert_eq!(m.process_m4(&m4), Err(AuthError::R2Mismatch));
    // under the wrong key the padding does not check out
    let mut body = R2.to_vec();
    body.extend_from_slice(&T2);
    let m4 = server_m4(&ks, &[0, 1], T1, &body);
    assert_eq!(m.process_m4(&m4), Err(AuthError::DecryptionFailed));
    assert!(!m.has_session_key());
    assert!(m.send_telemetry(b"x", &[0u8; 16]).is_none());
}

#[test]
fn r2_missing_before_m3() {
    let (mut m, _) = manager(5, 2);
    let mut m2 = vec![0u8, 3];
    m2.extend_from_slice(&R1);
    m.process_m2(&m2).unwrap();
    m.start_c2_selection(T1).unwrap();
    assert_eq!(m.accept_m4_plaintext(&[0u8; 16]), Err(AuthError::R2Missing));
}

#[test]
fn key_update_masks_each_key() {
    let (mut m, ks) = manager(3, 2);
    m.append_acked_telemetry(&1u64.to_be_bytes());
    m.append_acked_telemetry(&2u64.to_be_bytes());
    let mut telemetry = 1u64.to_be_bytes().to_vec();
    telemetry.extend_from_slice(&2u64.to_be_bytes());
    let concat: Vec<u8> = ks.iter().flat_map(|k| k.iter().copied()).collect();
    let mut h = [0u8; 32];
    hmac(&concat, &telemetry, &mut h);
    assert_eq!(m.update_keys(&[2u8; 16]), Ok(()));
    let new = m.key_store().get_keys().unwrap();
    let flat: Vec<u8> = new.iter().flat_map(|k| k.iter().copied()).collect();
    let mut sealed = vec![0u8; 16 + 112];
    let n = encrypt_aes_cbc(&[2u8; 16], &[0x5Au8; 32], &flat, &mut sealed);
    assert_eq!(m.key_store().ciphertext(), &sealed[..n]);
    assert_eq!(new.len(), 3);
    for i in 0..3 {
        for b in 0..32 {
            assert_eq!(new[i][b], ks[i][b] ^ h[b] ^ (i as u8));
            // applying the same mask again restores the old key
            assert_eq!(new[i][b] ^ h[b] ^ (i as u8), ks[i][b]);
        }
    }
    m.clear_telemetry_buffer();
    let empty = DeviceKeyStore::init([0u8; 32]);
    let mut m = AuthManager::new(empty, 1, 1);
    assert_eq!(m.update_keys(&[0u8; 16]), Err(Error::NotInitialized));
}

#[test]
fn big_endian_helpers() {
    assert_eq!(u64_from_be_bytes(T1), u64::from_be_bytes(T1));
    assert_eq!(u64_to_be_bytes(0x0102030405060708), [1, 2, 3, 4, 5, 6, 7, 8]);
}

#[test]
fn c2_can_hold_more_than_64_indices() {
    let (mut m, ks) = manager(100, 80);
    let mut m2: Vec<u8> = (0..80u8).collect();
    m2.extend_from_slice(&R1);
    m.process_m2(&m2).unwrap();
    m.start_c2_selection(T1).unwrap();
    let mut d: u16 = 0;
    while !m.c2_complete() {
        m.offer_c2_draw(d.to_be_bytes());
        d += 1;
    }
    assert_eq!(d, 80);
    let m3 = m.build_m3(R2, &[0u8; 16]);
    assert_eq!(m3.len(), 16 + ((24 + 80) / 16 + 1) * 16);
    let k1 = xor_keys(&ks, &m2[..80]);
    let mut buf = vec![0u8; m3.len()];
    let n = decrypt_aes_cbc(&k1, &m3, &mut buf).unwrap();
    let c2: Vec<u8> = (0..80u8).collect();
    assert_eq!(&buf[16..16 + 80], &c2[..]);
    assert_eq!(n, 24 + 80);
}

#[test]
fn manager_accepts_a_full_store_and_refuses_telemetry_without_key() {
    let ks = keys(1024);
    let mut store = DeviceKeyStore::init([1u8; 32]);
    store.store_keys(&ks, 1024, &[0u8; 16]).unwrap();
    assert_eq!(store.stored_count(), Some(1024));
    let m = AuthManager::new(store, 3, 2);
    assert!(m.send_telemetry(&[0u8; 300], &[0u8; 16]).is_none());
    assert_eq!(m.p(), 2);
}
