//! The device's side of the CoAP exchange with the server: message ids,
//! the request buffer, reading received messages, and when to resend or give
//! up while waiting for an answer. The socket itself is the caller's.
use vstd::prelude::*;
use crate::coap_utils::{
    build_coap_non_post, coap_non_post, coap_payload, extract_coap_payload, parse_response,
    response_of, segment_views, segments_fit, ServerResponse,
};

verus! {

/// Size of the buffer a request is built in.
pub const COAP_BUF_LEN: usize = 256;

/// How long an exchange waits for an answer, in milliseconds.
pub const EXCHANGE_TIMEOUT_MS: i64 = 10000;

/// After how many milliseconds without an answer the request is sent once more.
pub const RESEND_AFTER_MS: i64 = 2000;

/// A received message, as the device acts on it.
#[derive(Debug, PartialEq, Eq)]
pub enum CommResponse {
    /// The server acknowledged the last telemetry.
    Ack,
    /// The server ended the session; the keys are to be updated.
    AuthSessionTimeout,
    /// Any other payload, kept.
    Unknown(Vec<u8>),
}

/// Reads a received CoAP message: `None` where it carries no payload, else
/// the answer its payload names (an unknown payload is kept).
pub fn comm_response_from_packet(packet: &[u8]) -> (r: Option<CommResponse>)
    ensures
        match coap_payload(packet@) {
            None => r is None,
            Some(p) => match response_of(p) {
                ServerResponse::Ack => r == Some(CommResponse::Ack),
                ServerResponse::AuthSessionTimeout => r == Some(CommResponse::AuthSessionTimeout),
                ServerResponse::Unknown => r matches Some(CommResponse::Unknown(v)) && v@ == p,
            },
        },
{
    match extract_coap_payload(packet) {
        Some(coap_payload) => match parse_response(coap_payload) {
            ServerResponse::Ack => Some(CommResponse::Ack),
            ServerResponse::AuthSessionTimeout => Some(CommResponse::AuthSessionTimeout),
            ServerResponse::Unknown => Some(CommResponse::Unknown(vstd::slice::slice_to_vec(coap_payload))),
        },
        None => None,
    }
}


/// The message ids of outgoing requests.
pub struct CoapRequester {
    message_id: u16,
}

impl View for CoapRequester {
    /// The id of the next request.
    type V = u16;

    closed spec fn view(&self) -> u16 {
        self.message_id
    }
}

impl CoapRequester {
    /// Requests start at message id 0.
    pub fn new() -> (r: Self)
        ensures
            r@ == 0,
    {
        CoapRequester { message_id: 0 }
    }

    /// The id of the next request.
    pub fn message_id(&self) -> (id: u16)
        ensures
            id == self@,
    {
        self.message_id
    }

    /// The next request: a non-confirmable POST with the current message id,
    /// built in a buffer of `COAP_BUF_LEN` bytes; `None` where a segment is
    /// longer than 12 bytes or the request does not fit the buffer.
    pub fn prepare_request(&self, uri_path: &[&[u8]], payload: &[u8]) -> (r: Option<Vec<u8>>)
        requires
            payload@.len() <= isize::MAX,
        ensures
            ({
                let pkt = coap_non_post(self@, segment_views(uri_path@), payload@);
                if segments_fit(segment_views(uri_path@)) && pkt.len() <= COAP_BUF_LEN {
                    r matches Some(v) && v@ == pkt
                } else {
                    r is None
                }
            }),
    {
        let mut coap_buf = vec![0u8; COAP_BUF_LEN];
        match build_coap_non_post(self.message_id, uri_path, payload, coap_buf.as_mut_slice()) {
            Some(len) => {
                let mut v = Vec::new();
                v.extend_from_slice(&coap_buf.as_slice()[0..len]);
                assert(v@ =~= coap_buf@.take(len as int));
                Some(v)
            },
            None => None,
        }
    }

    /// Moves on to the next message id once a request went out (wrapping
    /// after 65535).
    pub fn mark_sent(&mut self)
        ensures
            final(self)@ == (if old(self)@ == u16::MAX { 0 } else { (old(self)@ + 1) as u16 }),
    {
        self.message_id = self.message_id.wrapping_add(1);
    }
}

/// The clock of one request-response exchange.
pub struct ExchangeTimer {
    start_ms: i64,
    resent: bool,
}

/// The state of an [`ExchangeTimer`].
pub struct ExchangeTimerView {
    /// When the request went out.
    pub start_ms: i64,
    /// Whether it was sent again.
    pub resent: bool,
}

impl View for ExchangeTimer {
    type V = ExchangeTimerView;

    closed spec fn view(&self) -> ExchangeTimerView {
        ExchangeTimerView { start_ms: self.start_ms, resent: self.resent }
    }
}

impl ExchangeTimer {
    /// An exchange whose request went out at `start_ms`.
    pub fn new(start_ms: i64) -> (t: Self)
        ensures
            t@ == (ExchangeTimerView { start_ms, resent: false }),
    {
        ExchangeTimer { start_ms, resent: false }
    }

    /// Whether the exchange has waited longer than `EXCHANGE_TIMEOUT_MS`.
    pub fn timed_out(&self, now_ms: i64) -> (b: bool)
        requires
            i64::MIN <= now_ms - self@.start_ms <= i64::MAX,
        ensures
            b == (now_ms - self@.start_ms > EXCHANGE_TIMEOUT_MS),
    {
        now_ms - self.start_ms > EXCHANGE_TIMEOUT_MS
    }

    /// Whether to send the request again now: once, after `RESEND_AFTER_MS`.
    pub fn take_resend(&mut self, now_ms: i64) -> (b: bool)
        requires
            i64::MIN <= now_ms - old(self)@.start_ms <= i64::MAX,
        ensures
            b == (!old(self)@.resent && now_ms - old(self)@.start_ms > RESEND_AFTER_MS),
            final(self)@ == (ExchangeTimerView {
                resent: old(self)@.resent || b,
                ..old(self)@
            }),
    {
        if !self.resent && now_ms - self.start_ms > RESEND_AFTER_MS {
            self.resent = true;
            true
        } else {
            false
        }
    }
}

} // verus!
