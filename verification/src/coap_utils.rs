//! The CoAP messages the device sends and reads: non-confirmable POST
//! requests with Uri-Path options, and the payload of a received message.
use vstd::prelude::*;

verus! {

/// The Uri-Path option number.
pub const URI_PATH_OPTION: u16 = 11;

/// The four header bytes of a non-confirmable POST without a token:
/// version 1, type NON, token length 0, code 0.02, message id big-endian.
pub open spec fn coap_header(message_id: u16) -> Seq<u8> {
    seq![0x50u8, 0x02u8, (message_id >> 8u16) as u8, message_id as u8]
}

/// Each segment as a byte sequence.
pub open spec fn segment_views(segs: Seq<&[u8]>) -> Seq<Seq<u8>> {
    segs.map_values(|s: &[u8]| s@)
}

/// Every segment fits a one-byte option header (at most 12 bytes).
pub open spec fn segments_fit(segs: Seq<Seq<u8>>) -> bool {
    forall|i: int| 0 <= i < segs.len() ==> #[trigger] segs[i].len() <= 12
}

/// The option header byte of Uri-Path segment `i` of length `len`: the first
/// option's delta is 11, the later ones' 0.
pub open spec fn uri_option_byte(i: int, len: nat) -> u8 {
    (((if i == 0 { 11int } else { 0int }) * 16) + len) as u8
}

/// The Uri-Path options, one per segment, in order.
pub open spec fn uri_options(segs: Seq<Seq<u8>>) -> Seq<u8>
    decreases segs.len(),
{
    if segs.len() == 0 {
        Seq::empty()
    } else {
        uri_options(segs.drop_last()) + seq![uri_option_byte(segs.len() - 1, segs.last().len())]
            + segs.last()
    }
}

/// A non-confirmable POST carrying `segs` as its Uri-Path and `payload`
/// after the payload marker.
pub open spec fn coap_non_post(message_id: u16, segs: Seq<Seq<u8>>, payload: Seq<u8>) -> Seq<u8> {
    coap_header(message_id) + uri_options(segs) + seq![0xFFu8] + payload
}

/// How far `build_coap_non_post` gets, reading the segments from `i` on,
/// before it gives up on a buffer of `cap` bytes: the offset where the
/// option of a segment longer than 12 bytes, or one that starts at or past
/// the end, would go; one past its header byte where the segment itself
/// does not fit; and after the last segment, the offset of the payload
/// marker where it does not fit, else one past it.
pub open spec fn written_before_failure(segs: Seq<Seq<u8>>, i: int, cap: nat) -> nat
    decreases segs.len() - i,
{
    let off = 4 + uri_options(segs.take(i)).len();
    if i < 0 || i >= segs.len() {
        if off >= cap {
            off
        } else {
            off + 1
        }
    } else if segs[i].len() > 12 || off >= cap {
        off
    } else if off + 1 + segs[i].len() > cap {
        off + 1
    } else {
        written_before_failure(segs, i + 1, cap)
    }
}

/// The Uri-Path options of the first segments are a prefix of those of all.
pub proof fn lemma_uri_options_prefix(segs: Seq<Seq<u8>>, i: int)
    requires
        0 <= i <= segs.len(),
    ensures
        uri_options(segs.take(i)).len() <= uri_options(segs).len(),
        uri_options(segs).take(uri_options(segs.take(i)).len() as int) == uri_options(segs.take(i)),
    decreases segs.len(),
{
    if i == segs.len() {
        assert(segs.take(i) =~= segs);
    } else {
        let init = segs.drop_last();
        lemma_uri_options_prefix(init, i);
        assert(init.take(i) =~= segs.take(i));
        let u = uri_options(segs.take(i));
        assert(uri_options(segs).take(u.len() as int) =~= uri_options(init).take(u.len() as int));
    }
}

/// The option header byte built with shifts is the one the format describes.
proof fn lemma_option_byte(delta: u16, seg_len: usize)
    requires
        delta == 11 || delta == 0,
        seg_len <= 12,
    ensures
        ((delta as u8) << 4u8) | (seg_len as u8) == ((delta * 16) + seg_len) as u8,
{
    let d = delta as u8;
    let l = seg_len as u8;
    assert(d <= 11 && l <= 12 ==> (d << 4u8) | l == d * 16 + l) by (bit_vector);
}

/// Writes a non-confirmable POST with message id `message_id`, one Uri-Path
/// option per segment, the payload marker and `payload` to the front of
/// `out`, and returns its length. `None` where a segment is longer than 12
/// bytes or the message does not fit; `out` then holds a prefix of the
/// message in front of what it held. `requires` leaves out a buffer shorter
/// than the header, and lengths beyond what a Rust slice can have.
pub fn build_coap_non_post(
    message_id: u16,
    uri_path_segments: &[&[u8]],
    payload: &[u8],
    out: &mut [u8],
) -> (r: Option<usize>)
    requires
        old(out)@.len() >= 4,
        old(out)@.len() <= isize::MAX,
        payload@.len() <= isize::MAX,
    ensures
        final(out)@.len() == old(out)@.len(),
        ({
            let segs = segment_views(uri_path_segments@);
            let pkt = coap_non_post(message_id, segs, payload@);
            if segments_fit(segs) && pkt.len() <= old(out)@.len() {
                &&& r == Some(pkt.len() as usize)
                &&& final(out)@.take(pkt.len() as int) == pkt
                &&& coap_payload(final(out)@.take(pkt.len() as int)) == Some(payload@)
                &&& final(out)@.skip(pkt.len() as int) == old(out)@.skip(pkt.len() as int)
            } else {
                let k = written_before_failure(segs, 0, old(out)@.len());
                &&& r is None
                &&& k <= pkt.len()
                &&& final(out)@.take(k as int) == pkt.take(k as int)
                &&& final(out)@.skip(k as int) == old(out)@.skip(k as int)
            }
        }),
{
    let ghost segs = segment_views(uri_path_segments@);
    let ghost pkt = coap_non_post(message_id, segs, payload@);
    let ghost old_out = out@;
    assert(segs.take(0) =~= Seq::<Seq<u8>>::empty());
    let mut offset: usize = 4;
    out[0] = 0x50;
    out[1] = 0x02;
    out[2] = #[verifier::truncate] ((message_id >> 8u16) as u8);
    out[3] = #[verifier::truncate] (message_id as u8);
    assert(out@.take(4) =~= coap_header(message_id));
    let mut prev_option_number: u16 = 0;
    let mut i: usize = 0;
    while i < uri_path_segments.len()
        invariant
            i <= uri_path_segments@.len(),
            segs == segment_views(uri_path_segments@),
            pkt == coap_non_post(message_id, segs, payload@),
            old_out == old(out)@,
            out@.len() == old_out.len(),
            old_out.len() <= isize::MAX,
            payload@.len() <= isize::MAX,
            segments_fit(segs.take(i as int)),
            prev_option_number == (if i == 0 { 0u16 } else { URI_PATH_OPTION }),
            offset == 4 + uri_options(segs.take(i as int)).len(),
            offset <= old_out.len(),
            out@.take(offset as int) == coap_header(message_id) + uri_options(segs.take(i as int)),
            forall|m: int| offset <= m < old_out.len() ==> out@[m] == old_out[m],
            written_before_failure(segs, 0, old_out.len()) == written_before_failure(segs, i as int, old_out.len()),
        decreases uri_path_segments@.len() - i,
    {
        proof {
            lemma_uri_options_prefix(segs, i as int);
            lemma_uri_options_prefix(segs, i + 1);
            assert(segs.take(i + 1).drop_last() =~= segs.take(i as int));
            assert(pkt.take(offset as int) =~= out@.take(offset as int));
        }
        let segment = uri_path_segments[i];
        assert(segment@ == segs[i as int]);
        let delta = URI_PATH_OPTION - prev_option_number;
        prev_option_number = URI_PATH_OPTION;
        let seg_len = segment.len();
        if delta > 12 || seg_len > 12 {
            assert(!segments_fit(segs));
            assert(out@.take(offset as int) == pkt.take(offset as int));
            assert(out@.skip(offset as int) =~= old_out.skip(offset as int));
            assert(4 <= offset <= pkt.len() && offset <= old_out.len()) by {
                assert(pkt.len() >= 4 + uri_options(segs).len() + 1);
            }
            return None;
        }
        if offset >= out.len() {
            assert(pkt.len() > old_out.len()) by {
                assert(pkt.len() >= 4 + uri_options(segs).len() + 1);
            }
            assert(out@.take(offset as int) == pkt.take(offset as int));
            assert(out@.skip(offset as int) =~= old_out.skip(offset as int));
            assert(4 <= offset <= pkt.len() && offset <= old_out.len()) by {
                assert(pkt.len() >= 4 + uri_options(segs).len() + 1);
            }
            return None;
        }
        proof {
            lemma_option_byte(delta, seg_len);
        }
        let ghost prefix = out@.take(offset as int);
        out[offset] = ((delta as u8) << 4u8) | (seg_len as u8);
        offset = offset + 1;
        proof {
            let u_next = coap_header(message_id) + uri_options(segs.take(i + 1));
            assert(u_next == prefix + seq![uri_option_byte(i as int, seg_len as nat)] + segs[i as int]);
            assert(out@.take(offset as int) =~= prefix.push(uri_option_byte(i as int, seg_len as nat)));
            assert(pkt.take(u_next.len() as int) =~= u_next);
            assert(out@.take(offset as int) =~= pkt.take(offset as int));
        }
        if offset + seg_len > out.len() {
            assert(pkt.len() > old_out.len()) by {
                assert(pkt.len() >= 4 + uri_options(segs).len() + 1);
                assert(uri_options(segs.take(i + 1)).len() == uri_options(segs.take(i as int)).len() + 1
                    + seg_len);
            }
            assert(out@.take(offset as int) == pkt.take(offset as int));
            assert(out@.skip(offset as int) =~= old_out.skip(offset as int));
            assert(4 <= offset <= pkt.len() && offset <= old_out.len()) by {
                assert(pkt.len() >= 4 + uri_options(segs).len() + 1);
            }
            return None;
        }
        let ghost before = out@;
        let mut j: usize = 0;
        while j < seg_len
            invariant
                j <= seg_len,
                seg_len == segment@.len(),
                offset + seg_len <= out.len(),
                out@.len() == old_out.len(),
                before.len() == old_out.len(),
                forall|m: int| 0 <= m < offset ==> out@[m] == before[m],
                forall|m: int| 0 <= m < j ==> out@[offset + m] == segment@[m],
                forall|m: int| offset + j <= m < old_out.len() ==> out@[m] == old_out[m],
            decreases seg_len - j,
        {
            out[offset + j] = segment[j];
            j = j + 1;
        }
        offset = offset + seg_len;
        proof {
            let u_next = coap_header(message_id) + uri_options(segs.take(i + 1));
            assert(out@.take(offset as int) =~= u_next);
            assert forall|m: int| 0 <= m < i + 1 implies #[trigger] segs.take(i + 1)[m].len() <= 12 by {
                if m < i {
                    assert(segs.take(i as int)[m] == segs.take(i + 1)[m]);
                }
            }
        }
        i = i + 1;
    }
    assert(segs.take(i as int) =~= segs);
    let ghost hu = coap_header(message_id) + uri_options(segs);
    assert(pkt == hu + seq![0xFFu8] + payload@);
    assert(pkt.take(offset as int) =~= hu);
    if offset >= out.len() {
        assert(out@.take(offset as int) == pkt.take(offset as int));
        assert(out@.skip(offset as int) =~= old_out.skip(offset as int));
        return None;
    }
    out[offset] = 0xFF;
    offset = offset + 1;
    assert(out@.take(offset as int) =~= hu.push(0xFFu8));
    assert(pkt.take(offset as int) =~= hu.push(0xFFu8));
    if offset + payload.len() > out.len() {
        assert(out@.take(offset as int) == pkt.take(offset as int));
        assert(out@.skip(offset as int) =~= old_out.skip(offset as int));
        return None;
    }
    let ghost before = out@;
    let mut j: usize = 0;
    while j < payload.len()
        invariant
            j <= payload@.len(),
            offset + payload@.len() <= out.len(),
            out@.len() == old_out.len(),
            before.len() == old_out.len(),
            forall|m: int| 0 <= m < offset ==> out@[m] == before[m],
            forall|m: int| 0 <= m < j ==> out@[offset + m] == payload@[m],
            forall|m: int| offset + j <= m < old_out.len() ==> out@[m] == old_out[m],
        decreases payload@.len() - j,
    {
        out[offset + j] = payload[j];
        j = j + 1;
    }
    assert(out@.take(offset as int) =~= hu.push(0xFFu8));
    offset = offset + payload.len();
    assert(out@.take(offset as int) =~= pkt);
    proof {
        lemma_payload_of_built(message_id, segs, payload@);
    }
    assert(out@.skip(offset as int) =~= old_out.skip(offset as int));
    Some(offset)
}


/// The value and the end of an option's delta or length field whose 4-bit
/// nibble is `nibble` and whose extended bytes, if any, start at `at`:
/// 13 takes one more byte (plus 13), 14 two more big-endian bytes (plus 269).
/// `None` where those bytes run past the end of the packet.
pub open spec fn option_field(packet: Seq<u8>, at: int, nibble: u8) -> Option<(int, int)> {
    if nibble == 13 {
        if 0 <= at < packet.len() {
            Some((packet[at] + 13, at + 1))
        } else {
            None
        }
    } else if nibble == 14 {
        if 0 <= at && at + 1 < packet.len() {
            Some((packet[at] * 256 + packet[at + 1] + 269, at + 2))
        } else {
            None
        }
    } else {
        Some((nibble as int, at))
    }
}

/// Where the payload starts when the options are read from `offset` on: just
/// past the payload marker `0xFF`, or `None` where the packet ends first or
/// an option runs past its end.
pub open spec fn payload_start(packet: Seq<u8>, offset: int) -> Option<int>
    decreases packet.len() - offset,
{
    if offset < 0 || offset >= packet.len() {
        None
    } else if packet[offset] == 0xFF {
        Some(offset + 1)
    } else {
        let byte = packet[offset];
        match option_field(packet, offset + 1, byte >> 4u8) {
            None => None,
            Some((_, after_delta)) => match option_field(packet, after_delta, byte & 0x0Fu8) {
                None => None,
                Some((length, after_length)) => if after_length + length > packet.len() {
                    None
                } else {
                    payload_start(packet, after_length + length)
                },
            },
        }
    }
}

/// The payload of a CoAP message: what follows the payload marker after the
/// 4-byte header, the token and the options.
pub open spec fn coap_payload(packet: Seq<u8>) -> Option<Seq<u8>> {
    if packet.len() < 4 {
        None
    } else {
        let start = 4 + (packet[0] & 0x0Fu8);
        if start > packet.len() {
            None
        } else {
            match payload_start(packet, start) {
                Some(s) => Some(packet.skip(s)),
                None => None,
            }
        }
    }
}

/// Returns the payload of a CoAP message, or `None` where it has none (no
/// payload marker) or is cut short.
pub fn extract_coap_payload(packet: &[u8]) -> (r: Option<&[u8]>)
    ensures
        match coap_payload(packet@) {
            Some(p) => r matches Some(s) && s@ == p,
            None => r is None,
        },
{
    if packet.len() < 4 {
        return None;
    }
    let token_len = (packet[0] & 0x0F) as usize;
    let mut offset = 4 + token_len;
    if offset > packet.len() {
        return None;
    }
    let ghost start = offset as int;
    loop
        invariant
            offset <= packet@.len(),
            4 + (packet@[0] & 0x0Fu8) == start,
            start <= packet@.len(),
            payload_start(packet@, offset as int) == payload_start(packet@, start),
        decreases packet@.len() - offset,
    {
        if offset >= packet.len() {
            return None;
        }
        let byte = packet[offset];
        if byte == 0xFF {
            return Some(&packet[offset + 1..packet.len()]);
        }
        offset = offset + 1;
        let mut delta = (byte >> 4u8) as usize;
        let mut length = (byte & 0x0Fu8) as usize;
        let ghost d = option_field(packet@, offset as int, byte >> 4u8);
        if delta == 13 {
            if offset >= packet.len() {
                return None;
            }
            delta = packet[offset] as usize + 13;
            offset = offset + 1;
        } else if delta == 14 {
            if offset >= packet.len() {
                return None;
            }
            let hi = packet[offset] as usize;
            if offset + 1 >= packet.len() {
                return None;
            }
            let lo = packet[offset + 1] as usize;
            delta = hi * 256 + lo + 269;
            offset = offset + 2;
        }
        assert(d == Some((delta as int, offset as int)));
        let ghost l = option_field(packet@, offset as int, byte & 0x0Fu8);
        if length == 13 {
            if offset >= packet.len() {
                return None;
            }
            length = packet[offset] as usize + 13;
            offset = offset + 1;
        } else if length == 14 {
            if offset >= packet.len() {
                return None;
            }
            let hi = packet[offset] as usize;
            if offset + 1 >= packet.len() {
                return None;
            }
            let lo = packet[offset + 1] as usize;
            length = hi * 256 + lo + 269;
            offset = offset + 2;
        }
        assert(l == Some((length as int, offset as int)));
        offset = match offset.checked_add(length) {
            Some(o) => o,
            None => {
                return None;
            },
        };
        if offset > packet.len() {
            return None;
        }
        let _ = delta;
    }
}

/// The option header byte of a fitting segment reads back as a delta below
/// 13 and the segment's length, and is never the payload marker.
proof fn lemma_option_byte_fields(i: int, len: nat)
    requires
        len <= 12,
    ensures
        uri_option_byte(i, len) != 0xFF,
        (uri_option_byte(i, len) >> 4u8) < 13,
        (uri_option_byte(i, len) & 0x0Fu8) == len,
{
    let b = uri_option_byte(i, len);
    let l = len as u8;
    if i == 0 {
        let c = (176 + l) as u8;
        assert(b == c);
        assert(l <= 12 && c == (176 + l) as u8 ==> c != 0xFF && (c >> 4u8) < 13 && (c & 0x0Fu8) == l)
            by (bit_vector);
    } else {
        assert(b == l);
        assert(l <= 12 ==> l != 0xFF && (l >> 4u8) < 13 && (l & 0x0Fu8) == l) by (bit_vector);
    }
}

/// Reading the options of a built message from the start of segment `i`'s
/// option on reaches the payload.
proof fn lemma_scan_built(message_id: u16, segs: Seq<Seq<u8>>, payload: Seq<u8>, i: int)
    requires
        segments_fit(segs),
        0 <= i <= segs.len(),
    ensures
        payload_start(
            coap_non_post(message_id, segs, payload),
            4 + uri_options(segs.take(i)).len() as int,
        ) == Some(4 + uri_options(segs).len() as int + 1),
    decreases segs.len() - i,
{
    let pkt = coap_non_post(message_id, segs, payload);
    let hu = coap_header(message_id) + uri_options(segs);
    assert(pkt == hu + seq![0xFFu8] + payload);
    lemma_uri_options_prefix(segs, i);
    let off = 4 + uri_options(segs.take(i)).len();
    if i == segs.len() {
        assert(segs.take(i) =~= segs);
        assert(pkt[off as int] == 0xFFu8);
    } else {
        lemma_uri_options_prefix(segs, i + 1);
        assert(segs.take(i + 1).drop_last() =~= segs.take(i));
        let u_next = uri_options(segs.take(i + 1));
        let seg = segs[i];
        let byte = uri_option_byte(i, seg.len());
        assert(u_next == uri_options(segs.take(i)) + seq![byte] + seg);
        assert(pkt.take(4 + u_next.len() as int) =~= coap_header(message_id) + u_next);
        let ut = uri_options(segs.take(i));
        assert((ut + seq![byte] + seg)[ut.len() as int] == byte);
        assert((coap_header(message_id) + u_next)[off as int] == u_next[ut.len() as int]);
        assert(pkt.take(4 + u_next.len() as int)[off as int] == pkt[off as int]);
        assert(pkt[off as int] == byte);
        lemma_option_byte_fields(i, seg.len());
        lemma_scan_built(message_id, segs, payload, i + 1);
    }
}

/// A message built for segments that fit carries exactly the payload it was
/// built with.
pub proof fn lemma_payload_of_built(message_id: u16, segs: Seq<Seq<u8>>, payload: Seq<u8>)
    requires
        segments_fit(segs),
    ensures
        coap_payload(coap_non_post(message_id, segs, payload)) == Some(payload),
{
    let pkt = coap_non_post(message_id, segs, payload);
    assert(pkt[0] == 0x50u8);
    assert((0x50u8 & 0x0Fu8) == 0u8) by (bit_vector);
    assert(segs.take(0) =~= Seq::<Seq<u8>>::empty());
    lemma_scan_built(message_id, segs, payload, 0);
    let hu = coap_header(message_id) + uri_options(segs);
    assert(pkt == hu + seq![0xFFu8] + payload);
    assert(pkt.skip(4 + uri_options(segs).len() as int + 1) =~= payload);
}

/// What the server answered.
#[derive(Debug, Clone, Copy, PartialEq, Eq, Structural)]
pub enum ServerResponse {
    /// `ACK`
    Ack,
    /// `ERROR:auth_session_timeout`
    AuthSessionTimeout,
    /// Anything else.
    Unknown,
}

/// The bytes of `ACK`.
pub open spec fn ack_bytes() -> Seq<u8> {
    seq![0x41u8, 0x43u8, 0x4Bu8]
}

/// The bytes of `ERROR:auth_session_timeout`.
pub open spec fn timeout_bytes() -> Seq<u8> {
    seq![
        0x45u8, 0x52u8, 0x52u8, 0x4Fu8, 0x52u8, 0x3Au8, 0x61u8, 0x75u8, 0x74u8, 0x68u8,
        0x5Fu8, 0x73u8, 0x65u8, 0x73u8, 0x73u8, 0x69u8, 0x6Fu8, 0x6Eu8, 0x5Fu8, 0x74u8,
        0x69u8, 0x6Du8, 0x65u8, 0x6Fu8, 0x75u8, 0x74u8,
    ]
}

/// The response a payload names.
pub open spec fn response_of(payload: Seq<u8>) -> ServerResponse {
    if payload == ack_bytes() {
        ServerResponse::Ack
    } else if payload == timeout_bytes() {
        ServerResponse::AuthSessionTimeout
    } else {
        ServerResponse::Unknown
    }
}

/// The bytes of an ASCII text.
pub open spec fn text_bytes(text: Seq<char>) -> Seq<u8> {
    text.map_values(|c: char| c as u8)
}

/// A payload is a session timeout exactly when it is the text
/// `ERROR:auth_session_timeout`, and an acknowledgement exactly when it is
/// `ACK`; every other payload, other `ERROR:` answers included, is unknown.
pub proof fn lemma_response_classification(payload: Seq<u8>)
    ensures
        (response_of(payload) == ServerResponse::AuthSessionTimeout) <==> payload == text_bytes(
            "ERROR:auth_session_timeout"@,
        ),
        (response_of(payload) == ServerResponse::Ack) <==> payload == text_bytes("ACK"@),
        (response_of(payload) == ServerResponse::Unknown) <==> (payload != text_bytes(
            "ERROR:auth_session_timeout"@,
        ) && payload != text_bytes("ACK"@)),
{
    reveal_strlit("ERROR:auth_session_timeout");
    reveal_strlit("ACK");
    assert(text_bytes("ERROR:auth_session_timeout"@) =~= timeout_bytes());
    assert(text_bytes("ACK"@) =~= ack_bytes());
}

/// Whether `a` holds exactly the bytes of `b`.
fn bytes_equal(a: &[u8], b: &[u8]) -> (eq: bool)
    ensures
        eq == (a@ == b@),
{
    if a.len() != b.len() {
        return false;
    }
    let mut i: usize = 0;
    while i < a.len()
        invariant
            i <= a@.len(),
            a@.len() == b@.len(),
            forall|m: int| 0 <= m < i ==> a@[m] == b@[m],
        decreases a@.len() - i,
    {
        if a[i] != b[i] {
            return false;
        }
        i = i + 1;
    }
    assert(a@ =~= b@);
    true
}

/// Reads the server's answer from a payload.
pub fn parse_response(payload: &[u8]) -> (r: ServerResponse)
    ensures
        r == response_of(payload@),
        (r == ServerResponse::AuthSessionTimeout) <==> payload@ == text_bytes(
            "ERROR:auth_session_timeout"@,
        ),
        (r == ServerResponse::Ack) <==> payload@ == text_bytes("ACK"@),
{
    proof {
        lemma_response_classification(payload@);
    }
    let ack: [u8; 3] = [0x41, 0x43, 0x4B];
    let timeout: [u8; 26] = [
        0x45, 0x52, 0x52, 0x4F, 0x52, 0x3A, 0x61, 0x75, 0x74, 0x68, 0x5F, 0x73, 0x65, 0x73, 0x73,
        0x69, 0x6F, 0x6E, 0x5F, 0x74, 0x69, 0x6D, 0x65, 0x6F, 0x75, 0x74,
    ];
    assert(ack@ =~= ack_bytes());
    assert(timeout@ =~= timeout_bytes());
    if bytes_equal(payload, ack.as_slice()) {
        ServerResponse::Ack
    } else if bytes_equal(payload, timeout.as_slice()) {
        ServerResponse::AuthSessionTimeout
    } else {
        ServerResponse::Unknown
    }
}

} // verus!
