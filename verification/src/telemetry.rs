//! When the device sends its telemetry and what it sends: a counter, sent
//! big-endian every `TELEMETRY_INTERVAL_MS`, that moves on when the server
//! acknowledges it; and what the device does with each answer of the server.
use vstd::prelude::*;
use crate::auth_manager::{be_bytes, rotate_keys, u64_to_be_bytes, update_tag, AuthManager, AuthState};
use crate::communication_manager::CommResponse;
use crate::crypto::aes256_cbc_encrypt;
use crate::secure_store::{concat_keys, Error, MAX_KEYS};

verus! {

/// Milliseconds between two telemetry messages.
pub const TELEMETRY_INTERVAL_MS: i64 = 5000;

/// The telemetry schedule.
pub struct TelemetrySchedule {
    next_send_at: i64,
    counter: u64,
}

/// The state of a [`TelemetrySchedule`].
pub struct TelemetryState {
    /// No message goes out before this time.
    pub next_send_at: i64,
    /// The value of the next message.
    pub counter: u64,
}

impl View for TelemetrySchedule {
    type V = TelemetryState;

    closed spec fn view(&self) -> TelemetryState {
        TelemetryState { next_send_at: self.next_send_at, counter: self.counter }
    }
}

impl TelemetrySchedule {
    /// The first message is due at once and carries 0.
    pub fn new() -> (s: Self)
        ensures
            s@ == (TelemetryState { next_send_at: 0, counter: 0 }),
    {
        TelemetrySchedule { next_send_at: 0, counter: 0 }
    }

    /// The value of the next message.
    pub fn counter(&self) -> (c: u64)
        ensures
            c == self@.counter,
    {
        self.counter
    }

    /// Whether a message is due at `now_ms`.
    pub fn is_due(&self, now_ms: i64) -> (b: bool)
        ensures
            b == (now_ms >= self@.next_send_at),
    {
        now_ms >= self.next_send_at
    }

    /// The payload of the next message: the counter, big-endian.
    pub fn payload(&self) -> (p: [u8; 8])
        ensures
            p@ == be_bytes(self@.counter),
    {
        u64_to_be_bytes(self.counter)
    }

    /// Puts the next message `TELEMETRY_INTERVAL_MS` after `now_ms`.
    pub fn schedule_after(&mut self, now_ms: i64)
        requires
            now_ms + TELEMETRY_INTERVAL_MS <= i64::MAX,
        ensures
            final(self)@ == (TelemetryState {
                next_send_at: (now_ms + TELEMETRY_INTERVAL_MS) as i64,
                ..old(self)@
            }),
    {
        self.next_send_at = now_ms + TELEMETRY_INTERVAL_MS;
    }

    /// The server acknowledged the current value: returns its payload, to be
    /// kept for the next key update, and moves on to the next value.
    /// `requires` leaves out the last `u64`, after which the counter would
    /// overflow.
    pub fn acknowledge(&mut self) -> (acked: [u8; 8])
        requires
            old(self)@.counter < u64::MAX,
        ensures
            acked@ == be_bytes(old(self)@.counter),
            final(self)@ == (TelemetryState { counter: (old(self)@.counter + 1) as u64, ..old(self)@ }),
    {
        let acked = u64_to_be_bytes(self.counter);
        self.counter = self.counter + 1;
        acked
    }
}


/// What an answer of the server calls for.
#[derive(Debug, Clone, Copy, PartialEq, Eq, Structural)]
pub enum ResponseAction {
    /// Record the acknowledged value and move on to the next.
    RecordAck,
    /// Update the keys, forget the telemetry, run the handshake again and
    /// reschedule the telemetry.
    RestartSession,
    /// Report an answer the device does not know.
    ReportUnknown,
}

/// The action an answer calls for.
pub fn response_action(r: &CommResponse) -> (a: ResponseAction)
    ensures
        a == (match r {
            CommResponse::Ack => ResponseAction::RecordAck,
            CommResponse::AuthSessionTimeout => ResponseAction::RestartSession,
            CommResponse::Unknown(_) => ResponseAction::ReportUnknown,
        }),
{
    match r {
        CommResponse::Ack => ResponseAction::RecordAck,
        CommResponse::AuthSessionTimeout => ResponseAction::RestartSession,
        CommResponse::Unknown(_) => ResponseAction::ReportUnknown,
    }
}

/// On an acknowledgement: the acknowledged value joins the telemetry that
/// the next key update hashes, and the schedule moves on to the next value.
/// `requires` leaves out the last `u64`, after which the counter would
/// overflow.
pub fn record_ack(auth: &mut AuthManager, schedule: &mut TelemetrySchedule)
    requires
        old(auth).wf(),
        old(schedule)@.counter < u64::MAX,
    ensures
        final(auth).wf(),
        final(auth)@ == (AuthState {
            telemetry: old(auth)@.telemetry + be_bytes(old(schedule)@.counter),
            ..old(auth)@
        }),
        final(schedule)@ == (TelemetryState {
            counter: (old(schedule)@.counter + 1) as u64,
            ..old(schedule)@
        }),
{
    let acked = schedule.acknowledge();
    auth.append_acked_telemetry(acked.as_slice());
}

/// On the end of a session: updates the keys with `iv` (sixteen random
/// bytes) as the IV of the new ciphertext, under the same device secret, then forgets the acknowledged
/// telemetry whether or not the update went through. Returns the update's
/// result.
pub fn rotate_session_keys(auth: &mut AuthManager, iv: &[u8; 16]) -> (r: Result<(), Error>)
    requires
        old(auth).wf(),
        old(auth)@.keys matches Some(ks) ==> ks.len() < MAX_KEYS,
    ensures
        final(auth).wf(),
        match old(auth)@.keys {
            None => r == Err::<(), Error>(Error::NotInitialized) && final(auth)@ == (AuthState {
                telemetry: Seq::empty(),
                ..old(auth)@
            }),
            Some(ks) => r is Ok && final(auth)@ == (AuthState {
                keys: Some(rotate_keys(ks, update_tag(ks, old(auth)@.telemetry))),
                sealed: iv@ + aes256_cbc_encrypt(
                    old(auth)@.secret,
                    iv@,
                    concat_keys(rotate_keys(ks, update_tag(ks, old(auth)@.telemetry))),
                ),
                telemetry: Seq::empty(),
                ..old(auth)@
            }),
        },
{
    let r = auth.update_keys(iv);
    auth.clear_telemetry_buffer();
    r
}

} // verus!
