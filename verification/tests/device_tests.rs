use iot_auth::clock::now_millis;
use iot_auth::mmu::{mmu_setup, sctlr_enabled};
use iot_auth::auth_manager::AuthManager;
use iot_auth::communication_manager::CommResponse;
use iot_auth::crypto::hmac;
use iot_auth::secure_store::{DeviceKeyStore, Error};
use iot_auth::telemetry::{record_ack, response_action, rotate_session_keys, ResponseAction, TelemetrySchedule};
use iot_auth::uart::hex_line;

#[test]
fn millis_from_counter() {
    assert_eq!(now_millis(62_500_000, 62_500_000), 1000);
    assert_eq!(now_millis(u64::MAX, 1), ((u64::MAX as u128 * 1000) as u64) as i64);
    assert_eq!(now_millis(1, 3), 333);
}

#[test]
fn hex_dump_line() {
    assert_eq!(hex_line(&[0x00, 0xAB, 0x7F]), b"00ab7f\r\n".to_vec());
    assert_eq!(hex_line(&[]), b"\r\n".to_vec());
}

#[test]
fn mmu_values() {
    let m = mmu_setup();
    assert_eq!(m.l1_entry0, 0x401);
    assert_eq!(m.l1_entry1, 0x4000_0705);
    assert_eq!(m.mair, 0xFF00);
    assert_eq!(m.tcr, 0x3519);
    assert_eq!(sctlr_enabled(0x30D0_0800), 0x30D0_1805);
}

#[test]
fn telemetry_schedule() {
    let mut s = TelemetrySchedule::new();
    assert!(s.is_due(0));
    assert_eq!(s.payload(), [0u8; 8]);
    s.schedule_after(100);
    assert!(!s.is_due(5099));
    assert!(s.is_due(5100));
    assert_eq!(s.acknowledge(), [0u8; 8]);
    assert_eq!(s.counter(), 1);
    assert_eq!(s.payload(), 1u64.to_be_bytes());
}

#[test]
fn answers_and_their_actions() {
    assert_eq!(response_action(&CommResponse::Ack), ResponseAction::RecordAck);
    assert_eq!(response_action(&CommResponse::AuthSessionTimeout), ResponseAction::RestartSession);
    assert_eq!(response_action(&CommResponse::Unknown(vec![1])), ResponseAction::ReportUnknown);
}

#[test]
fn ack_then_session_end_rotates_with_the_acked_values() {
    let ks: Vec<[u8; 32]> = (0..2u8).map(|i| [i + 1; 32]).collect();
    let mut store = DeviceKeyStore::init([4u8; 32]);
    store.store_keys(&ks, 2, &[0u8; 16]).unwrap();
    let mut auth = AuthManager::new(store, 1, 1);
    let mut schedule = TelemetrySchedule::new();
    record_ack(&mut auth, &mut schedule);
    record_ack(&mut auth, &mut schedule);
    assert_eq!(schedule.counter(), 2);
    let mut telemetry = 0u64.to_be_bytes().to_vec();
    telemetry.extend_from_slice(&1u64.to_be_bytes());
    let concat: Vec<u8> = ks.iter().flat_map(|k| k.iter().copied()).collect();
    let mut h = [0u8; 32];
    hmac(&concat, &telemetry, &mut h);
    assert_eq!(rotate_session_keys(&mut auth, &[3u8; 16]), Ok(()));
    let new = auth.key_store().get_keys().unwrap();
    for i in 0..2 {
        for b in 0..32 {
            assert_eq!(new[i][b], ks[i][b] ^ h[b] ^ (i as u8));
        }
    }
    // the telemetry was forgotten: a second rotation hashes no telemetry
    let concat2: Vec<u8> = new.iter().flat_map(|k| k.iter().copied()).collect();
    let mut h2 = [0u8; 32];
    hmac(&concat2, &[], &mut h2);
    assert_eq!(rotate_session_keys(&mut auth, &[3u8; 16]), Ok(()));
    let newer = auth.key_store().get_keys().unwrap();
    assert_eq!(newer[1][0], new[1][0] ^ h2[0] ^ 1);
    let mut empty = AuthManager::new(DeviceKeyStore::init([0u8; 32]), 1, 1);
    assert_eq!(rotate_session_keys(&mut empty, &[0u8; 16]), Err(Error::NotInitialized));
}
