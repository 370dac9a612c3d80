//! The device side of the multi-key challenge-response handshake.
//!
//! M1 carries the device id. M2 carries `C1` (`p` key indices) and a nonce
//! `r1`; the device answers with M3 = `Enc(K1, r1 || t1 || C2 || r2)`, where
//! `K1` is the XOR of the keys that `C1` selects, `t1` and `r2` are random and
//! `C2` is `p` distinct random key indices. M4 is `Enc(K2 ^ t1, r2 || t2)`,
//! with `K2` the XOR of the keys that `C2` selects; the session key is `t1 ^ t2`
//! spread over 32 bytes.
//!
//! Every random value is an argument here: the caller draws it (an IV, `t1`,
//! `r2`, one two-byte draw per candidate index of `C2`) and hands it in, in the
//! order the handshake consumes it.
use vstd::prelude::*;
use crate::crypto::{
    aes256_cbc_decrypt, aes256_cbc_encrypt, decrypt_aes_cbc, encrypt_aes_cbc, hmac_sha256,
    padded_len, IV_LEN, KEY_LEN,
};
use crate::secure_store::{
    concat_keys, flatten_keys, key_list_as_slice, key_views, lemma_flatten_is_concat,
    lemma_flatten_keys_index, DeviceKeyStore, Error, MAX_KEYS,
};

verus! {

/// Size of the buffers that hold `IV || ciphertext` of one protocol message.
pub const AES_IV_AND_PAD_BUF: usize = 256;

/// Capacity of the list of `C2` indices: room for `p` indices for every `p`
/// a `u8` can hold.
pub const C2_CAPACITY: usize = 255;

/// The indices held by the `C2` list.
pub uninterp spec fn c2_indices(v: heapless::Vec<u8, C2_CAPACITY>) -> Seq<u8>;

/// `heapless::Vec::new`: an empty vector.
#[verifier::external_body]
fn c2_new() -> (v: heapless::Vec<u8, C2_CAPACITY>)
    ensures
        c2_indices(v) == Seq::<u8>::empty(),
{
    heapless::Vec::new()
}

/// `heapless::Vec::push`: below capacity the item is appended and `Ok` comes
/// back; at capacity nothing changes and `Err` hands the item back.
#[verifier::external_body]
fn c2_push(v: &mut heapless::Vec<u8, C2_CAPACITY>, item: u8) -> (r: Result<(), u8>)
    ensures
        c2_indices(*old(v)).len() < C2_CAPACITY ==> (r is Ok
            && c2_indices(*final(v)) == c2_indices(*old(v)).push(item)),
        c2_indices(*old(v)).len() >= C2_CAPACITY ==> (r == Err::<(), u8>(item)
            && c2_indices(*final(v)) == c2_indices(*old(v))),
{
    v.push(item)
}

/// `heapless::Vec::as_slice`: the items, in order.
#[verifier::external_body]
fn c2_as_slice(v: &heapless::Vec<u8, C2_CAPACITY>) -> (s: &[u8])
    ensures
        s@ == c2_indices(*v),
{
    v.as_slice()
}

/// Why a step of the handshake stopped.
#[derive(Debug, Clone, Copy, PartialEq, Eq, Structural)]
pub enum AuthError {
    /// M2 is shorter than `p` indices and an 8-byte nonce.
    M2TooShort,
    /// The key store could not be read.
    KeysUnavailable,
    /// The key store holds no key.
    NoKeys,
    /// An index of `C1` names no key.
    C1IndexOutOfRange,
    /// `p` is larger than the number of keys, so `C2` cannot hold `p` distinct indices.
    TooFewKeysForC2,
    /// No `C2` has been chosen.
    NoC2,
    /// An index of `C2` names no key.
    C2IndexOutOfRange,
    /// No `t1` has been drawn.
    T1Missing,
    /// M4 did not decrypt under the expected key.
    DecryptionFailed,
    /// The plaintext of M4 is shorter than `r2 || t2`.
    M4TooShort,
    /// No `r2` has been drawn.
    R2Missing,
    /// M4 does not echo the `r2` that M3 carried.
    R2Mismatch,
}

/// What the handshake keeps between the steps that build M3.
#[derive(Clone, Copy)]
pub struct M3Context {
    /// `K1`, the key of M3.
    pub k1: [u8; KEY_LEN],
    /// The nonce `r1` from M2.
    pub r1: [u8; 8],
    /// How many keys the store held when M2 was handled.
    pub key_count: usize,
}

/// Where the building of M3 stands.
#[derive(Clone, Copy)]
pub enum Handshake {
    /// No M3 is being built.
    Idle,
    /// M2 was accepted; `t1` is to be drawn.
    AwaitingT1(M3Context),
    /// `t1` was drawn; `C2` is being chosen.
    SelectingC2(M3Context),
}

/// [`Handshake`] over byte sequences.
pub enum HandshakeView {
    /// No M3 is being built.
    Idle,
    /// M2 gave `K1`, `r1` and the number of keys; `t1` is to be drawn.
    AwaitingT1 { k1: Seq<u8>, r1: Seq<u8>, key_count: nat },
    /// `t1` was drawn; `C2` is being chosen among `key_count` keys.
    SelectingC2 { k1: Seq<u8>, r1: Seq<u8>, key_count: nat },
}

/// The state of an [`AuthManager`].
pub struct AuthState {
    /// What the key store holds (`None` before the first store).
    pub keys: Option<Seq<Seq<u8>>>,
    /// The device secret the key store encrypts under.
    pub secret: Seq<u8>,
    /// What the key store keeps: the IV followed by the encrypted keys
    /// (empty before the first store).
    pub sealed: Seq<u8>,
    /// The device id that M1 carries.
    pub iot_uid: u8,
    /// How many indices `C1` and `C2` carry.
    pub p: u8,
    /// The last `t1` drawn.
    pub t1: Option<u64>,
    /// The `r2` that the last M3 carried.
    pub r2: Option<Seq<u8>>,
    /// The session key, once M4 was accepted.
    pub session_key: Option<Seq<u8>>,
    /// The indices of the last `C2`.
    pub c2: Seq<u8>,
    /// The telemetry that the server acknowledged since the last key update.
    pub telemetry: Seq<u8>,
    /// Where the building of M3 stands.
    pub handshake: HandshakeView,
}

/// Byte-wise XOR.
pub open spec fn xor_bytes(a: Seq<u8>, b: Seq<u8>) -> Seq<u8> {
    Seq::new(a.len(), |i: int| a[i] ^ b[i])
}

/// 32 zero bytes.
pub open spec fn zero_key() -> Seq<u8> {
    Seq::new(32, |i: int| 0u8)
}

/// The XOR of the keys that `idx` selects, in order (32 zero bytes for none).
pub open spec fn combine_keys(keys: Seq<Seq<u8>>, idx: Seq<u8>) -> Seq<u8>
    decreases idx.len(),
{
    if idx.len() == 0 {
        zero_key()
    } else {
        xor_bytes(combine_keys(keys, idx.drop_last()), keys[idx.last() as int])
    }
}

/// Every index of `idx` is below `n`.
pub open spec fn all_below(idx: Seq<u8>, n: nat) -> bool {
    forall|i: int| 0 <= i < idx.len() ==> idx[i] < n
}

/// No index occurs twice in `idx`.
pub open spec fn all_distinct(idx: Seq<u8>) -> bool {
    forall|i: int, j: int| 0 <= i < j < idx.len() ==> idx[i] != idx[j]
}

/// Every key is 32 bytes long.
pub open spec fn keys_wf(keys: Seq<Seq<u8>>) -> bool {
    forall|i: int| 0 <= i < keys.len() ==> #[trigger] keys[i].len() == 32
}

/// The big-endian `u64` of eight bytes.
pub open spec fn u64_from_be(b: Seq<u8>) -> u64 {
    ((b[0] as u64) << 56u64) | ((b[1] as u64) << 48u64) | ((b[2] as u64) << 40u64) | ((b[3] as u64)
        << 32u64) | ((b[4] as u64) << 24u64) | ((b[5] as u64) << 16u64) | ((b[6] as u64) << 8u64)
        | (b[7] as u64)
}

/// The eight big-endian bytes of a `u64`.
pub open spec fn be_bytes(x: u64) -> Seq<u8> {
    seq![
        (x >> 56u64) as u8,
        (x >> 48u64) as u8,
        (x >> 40u64) as u8,
        (x >> 32u64) as u8,
        (x >> 24u64) as u8,
        (x >> 16u64) as u8,
        (x >> 8u64) as u8,
        x as u8,
    ]
}

/// Eight bytes repeated over 32.
pub open spec fn expand8(b: Seq<u8>) -> Seq<u8> {
    Seq::new(32, |i: int| b[i % 8])
}

/// What M2 gives: `K1`, `r1` and the number of keys, or why it is refused.
pub open spec fn m2_outcome(p: u8, keys: Option<Seq<Seq<u8>>>, m2: Seq<u8>) -> Result<
    (Seq<u8>, Seq<u8>, nat),
    AuthError,
> {
    if m2.len() < p + 8 {
        Err(AuthError::M2TooShort)
    } else {
        match keys {
            None => Err(AuthError::KeysUnavailable),
            Some(ks) => if ks.len() == 0 {
                Err(AuthError::NoKeys)
            } else if !all_below(m2.take(p as int), ks.len()) {
                Err(AuthError::C1IndexOutOfRange)
            } else {
                Ok((combine_keys(ks, m2.take(p as int)), m2.subrange(p as int, p + 8), ks.len()))
            },
        }
    }
}

/// The index that a two-byte draw proposes for `C2` among `n` keys: the
/// big-endian value modulo `n`, cut to a byte.
pub open spec fn c2_candidate(draw: Seq<u8>, n: nat) -> u8 {
    ((draw[0] * 256 + draw[1]) % (n as int)) as u8
}

/// The plaintext of M3: `r1 || t1 || C2 || r2`.
pub open spec fn m3_plaintext(r1: Seq<u8>, t1: u64, c2: Seq<u8>, r2: Seq<u8>) -> Seq<u8> {
    r1 + be_bytes(t1) + c2 + r2
}

/// The key that M4 is encrypted under: `K2 ^ t1`, or why it cannot be formed.
pub open spec fn m4_key_outcome(keys: Option<Seq<Seq<u8>>>, c2: Seq<u8>, t1: Option<u64>) -> Result<
    Seq<u8>,
    AuthError,
> {
    match keys {
        None => Err(AuthError::KeysUnavailable),
        Some(ks) => if c2.len() == 0 {
            Err(AuthError::NoC2)
        } else if !all_below(c2, ks.len()) {
            Err(AuthError::C2IndexOutOfRange)
        } else {
            match t1 {
                None => Err(AuthError::T1Missing),
                Some(t) => Ok(xor_bytes(combine_keys(ks, c2), expand8(be_bytes(t)))),
            }
        },
    }
}

/// The session key that the plaintext of M4 gives (`t1 ^ t2` over 32 bytes),
/// or why it is refused.
pub open spec fn m4_outcome(t1: Option<u64>, r2: Option<Seq<u8>>, plaintext: Seq<u8>) -> Result<
    Seq<u8>,
    AuthError,
> {
    match t1 {
        None => Err(AuthError::T1Missing),
        Some(t) => if plaintext.len() < 16 {
            Err(AuthError::M4TooShort)
        } else {
            match r2 {
                None => Err(AuthError::R2Missing),
                Some(r) => if r != plaintext.take(8) {
                    Err(AuthError::R2Mismatch)
                } else {
                    Ok(xor_bytes(expand8(be_bytes(t)), expand8(plaintext.subrange(8, 16))))
                },
            }
        },
    }
}

/// The mask that the key update applies to key `i`: the tag XOR the index
/// (taken modulo 256) in every byte.
pub open spec fn update_mask(tag: Seq<u8>, i: int) -> Seq<u8> {
    Seq::new(32, |b: int| tag[b] ^ ((i % 256) as u8))
}

/// The keys after an update with `tag`: key `i` XOR its mask.
pub open spec fn rotate_keys(keys: Seq<Seq<u8>>, tag: Seq<u8>) -> Seq<Seq<u8>> {
    Seq::new(keys.len(), |i: int| xor_bytes(keys[i], update_mask(tag, i)))
}

/// The tag of a key update: the HMAC of the concatenated keys, keyed by the
/// acknowledged telemetry.
pub open spec fn update_tag(keys: Seq<Seq<u8>>, telemetry: Seq<u8>) -> Seq<u8> {
    hmac_sha256(telemetry, concat_keys(keys))
}

/// The big-endian `u64` of eight bytes.
pub fn u64_from_be_bytes(b: [u8; 8]) -> (x: u64)
    ensures
        x == u64_from_be(b@),
{
    ((b[0] as u64) << 56u64) | ((b[1] as u64) << 48u64) | ((b[2] as u64) << 40u64) | ((b[3] as u64)
        << 32u64) | ((b[4] as u64) << 24u64) | ((b[5] as u64) << 16u64) | ((b[6] as u64) << 8u64)
        | (b[7] as u64)
}

/// The eight big-endian bytes of a `u64`.
pub fn u64_to_be_bytes(x: u64) -> (b: [u8; 8])
    ensures
        b@ == be_bytes(x),
{
    let b = [
        (x >> 56u64) as u8,
        (x >> 48u64) as u8,
        (x >> 40u64) as u8,
        (x >> 32u64) as u8,
        (x >> 24u64) as u8,
        (x >> 16u64) as u8,
        (x >> 8u64) as u8,
        x as u8,
    ];
    assert(b@ =~= be_bytes(x));
    b
}

/// Reading eight bytes as a big-endian `u64` and writing it back gives the
/// same bytes.
pub proof fn lemma_be_roundtrip(b: Seq<u8>)
    requires
        b.len() == 8,
    ensures
        be_bytes(u64_from_be(b)) == b,
{
    let (b0, b1, b2, b3, b4, b5, b6, b7) = (b[0], b[1], b[2], b[3], b[4], b[5], b[6], b[7]);
    let x = u64_from_be(b);
    assert(x == ((b0 as u64) << 56u64) | ((b1 as u64) << 48u64) | ((b2 as u64) << 40u64) | ((
    b3 as u64) << 32u64) | ((b4 as u64) << 24u64) | ((b5 as u64) << 16u64) | ((b6 as u64) << 8u64)
        | (b7 as u64));
    assert((x >> 56u64) as u8 == b0 && (x >> 48u64) as u8 == b1 && (x >> 40u64) as u8 == b2 && (x
        >> 32u64) as u8 == b3 && (x >> 24u64) as u8 == b4 && (x >> 16u64) as u8 == b5 && (x
        >> 8u64) as u8 == b6 && x as u8 == b7) by (bit_vector)
        requires
            x == ((b0 as u64) << 56u64) | ((b1 as u64) << 48u64) | ((b2 as u64) << 40u64) | ((
            b3 as u64) << 32u64) | ((b4 as u64) << 24u64) | ((b5 as u64) << 16u64) | ((b6 as u64)
                << 8u64) | (b7 as u64),
    ;
    assert(be_bytes(x) =~= b);
}


/// The device side of the handshake, with the key store it reads the keys from.
pub struct AuthManager {
    key_store: DeviceKeyStore,
    iot_uid: u8,
    p: u8,
    t1: Option<u64>,
    r2: Option<[u8; 8]>,
    session_key: Option<[u8; 32]>,
    last_c2: heapless::Vec<u8, C2_CAPACITY>,
    telemetry_buffer: Vec<u8>,
    handshake: Handshake,
}

/// [`Handshake`] over byte sequences.
pub open spec fn handshake_view(h: Handshake) -> HandshakeView {
    match h {
        Handshake::Idle => HandshakeView::Idle,
        Handshake::AwaitingT1(c) => HandshakeView::AwaitingT1 {
            k1: c.k1@,
            r1: c.r1@,
            key_count: c.key_count as nat,
        },
        Handshake::SelectingC2(c) => HandshakeView::SelectingC2 {
            k1: c.k1@,
            r1: c.r1@,
            key_count: c.key_count as nat,
        },
    }
}

/// An optional array as an optional byte sequence.
pub open spec fn opt_bytes<const N: usize>(a: Option<[u8; N]>) -> Option<Seq<u8>> {
    match a {
        Some(x) => Some(x@),
        None => None,
    }
}

impl View for AuthManager {
    type V = AuthState;

    closed spec fn view(&self) -> AuthState {
        AuthState {
            keys: self.key_store@,
            secret: self.key_store.secret(),
            sealed: self.key_store.sealed(),
            iot_uid: self.iot_uid,
            p: self.p,
            t1: self.t1,
            r2: opt_bytes(self.r2),
            session_key: opt_bytes(self.session_key),
            c2: c2_indices(self.last_c2),
            telemetry: self.telemetry_buffer@,
            handshake: handshake_view(self.handshake),
        }
    }
}

impl AuthManager {
    /// Well-formedness: the key store is well formed, `C2` fits
    /// its list and never holds an index twice, and while `C2` is being chosen
    /// it stays below `p` entries and below the number of keys.
    pub closed spec fn wf(&self) -> bool {
        &&& self.key_store.wf()
        &&& self.key_store@ matches Some(ks) ==> keys_wf(ks)
        &&& c2_indices(self.last_c2).len() <= C2_CAPACITY
        &&& all_distinct(c2_indices(self.last_c2))
        &&& match self.handshake {
            Handshake::Idle => true,
            Handshake::AwaitingT1(c) => c.key_count >= 1,
            Handshake::SelectingC2(c) => {
                &&& c.key_count >= 1
                &&& self.p <= c.key_count
                &&& c2_indices(self.last_c2).len() <= self.p
                &&& all_below(c2_indices(self.last_c2), c.key_count as nat)
                &&& self.t1 is Some
            },
        }
    }

    /// A manager for the device `iot_uid` whose challenges carry `p` indices.
    pub fn new(key_store: DeviceKeyStore, iot_uid: u8, p: u8) -> (m: Self)
        requires
            key_store.wf(),
        ensures
            m.wf(),
            m@ == (AuthState {
                keys: key_store@,
                secret: key_store.secret(),
                sealed: key_store.sealed(),
                iot_uid,
                p,
                t1: None,
                r2: None,
                session_key: None,
                c2: Seq::empty(),
                telemetry: Seq::empty(),
                handshake: HandshakeView::Idle,
            }),
    {
        proof {
            crate::secure_store::lemma_view_keys_wf(&key_store);
        }
        AuthManager {
            key_store,
            iot_uid,
            p,
            t1: None,
            r2: None,
            session_key: None,
            last_c2: c2_new(),
            telemetry_buffer: Vec::new(),
            handshake: Handshake::Idle,
        }
    }

    /// The key store.
    pub fn key_store(&self) -> (ks: &DeviceKeyStore)
        requires
            self.wf(),
        ensures
            ks.wf(),
            ks@ == self@.keys,
    {
        &self.key_store
    }

    /// How many indices `C1` and `C2` carry.
    pub fn p(&self) -> (p: u8)
        ensures
            p == self@.p,
    {
        self.p
    }

    /// M1: the device id.
    pub fn m1_payload(&self) -> (m1: Vec<u8>)
        ensures
            m1@ == seq![self@.iot_uid],
    {
        let mut m1 = Vec::new();
        m1.push(self.iot_uid);
        m1
    }

    /// XOR of the keys that `idx` selects, or `None` at the first index that
    /// names no key.
    fn xor_selected(keys: &[[u8; KEY_LEN]], idx: &[u8]) -> (r: Option<[u8; KEY_LEN]>)
        ensures
            !all_below(idx@, keys@.len()) ==> r is None,
            all_below(idx@, keys@.len()) ==> (r matches Some(k) && k@ == combine_keys(
                key_views(keys@),
                idx@,
            )),
    {
        let mut k = [0u8; KEY_LEN];
        let mut t: usize = 0;
        assert(k@ =~= zero_key());
        while t < idx.len()
            invariant
                t <= idx@.len(),
                all_below(idx@.take(t as int), keys@.len()),
                k@ == combine_keys(key_views(keys@), idx@.take(t as int)),
            decreases idx@.len() - t,
        {
            let i = idx[t] as usize;
            if i >= keys.len() {
                return None;
            }
            let kb = &keys[i];
            let ghost before = k@;
            let mut j: usize = 0;
            while j < KEY_LEN
                invariant
                    j <= KEY_LEN,
                    before.len() == 32,
                    *kb == keys@[i as int],
                    forall|m: int| 0 <= m < j ==> k@[m] == before[m] ^ kb@[m],
                    forall|m: int| j <= m < 32 ==> k@[m] == before[m],
                decreases KEY_LEN - j,
            {
                k[j] = k[j] ^ kb[j];
                j = j + 1;
            }
            proof {
                let nt = idx@.take(t + 1);
                assert(nt.drop_last() =~= idx@.take(t as int));
                assert(nt.last() == idx@[t as int]);
                assert(key_views(keys@)[i as int] == kb@);
                assert(k@ =~= xor_bytes(before, kb@));
            }
            t = t + 1;
        }
        assert(idx@.take(idx@.len() as int) =~= idx@);
        Some(k)
    }

    /// Handles M2: reads `C1` and `r1`, and forms `K1` from the keys that `C1`
    /// selects. On success the handshake waits for `t1`; on failure nothing
    /// changes.
    pub fn process_m2(&mut self, m2: &[u8]) -> (r: Result<(), AuthError>)
        requires
            old(self).wf(),
            old(self)@.keys matches Some(ks) ==> ks.len() < MAX_KEYS,
        ensures
            final(self).wf(),
            match m2_outcome(old(self)@.p, old(self)@.keys, m2@) {
                Err(e) => r == Err::<(), AuthError>(e) && final(self)@ == old(self)@,
                Ok((k1, r1, n)) => r is Ok && final(self)@ == (AuthState {
                    handshake: HandshakeView::AwaitingT1 { k1, r1, key_count: n },
                    ..old(self)@
                }),
            },
    {
        let expected_c1_len = self.p as usize;
        if m2.len() < expected_c1_len + 8 {
            return Err(AuthError::M2TooShort);
        }
        let c1 = &m2[0..expected_c1_len];
        let mut r1 = [0u8; 8];
        let mut j: usize = 0;
        while j < 8
            invariant
                j <= 8,
                expected_c1_len + 8 <= m2.len(),
                forall|m: int| 0 <= m < j ==> r1@[m] == m2@[expected_c1_len + m],
            decreases 8 - j,
        {
            r1[j] = m2[expected_c1_len + j];
            j = j + 1;
        }
        assert(r1@ =~= m2@.subrange(expected_c1_len as int, expected_c1_len + 8));
        let keys = match self.key_store.get_keys() {
            Ok(k) => k,
            Err(_) => {
                return Err(AuthError::KeysUnavailable);
            },
        };
        let keys = key_list_as_slice(&keys);
        if keys.len() == 0 {
            return Err(AuthError::NoKeys);
        }
        let k1 = match Self::xor_selected(keys, c1) {
            Some(k) => k,
            None => {
                return Err(AuthError::C1IndexOutOfRange);
            },
        };
        self.handshake = Handshake::AwaitingT1(M3Context { k1, r1, key_count: keys.len() });
        Ok(())
    }

    /// Takes `t1` (eight random bytes, read big-endian) and starts a new `C2`.
    /// Where `p` exceeds the number of keys no `C2` of distinct indices
    /// exists: the building of M3 stops, with `t1` kept and `C2` empty.
    pub fn start_c2_selection(&mut self, t1_bytes: [u8; 8]) -> (r: Result<(), AuthError>)
        requires
            old(self).wf(),
            old(self)@.handshake is AwaitingT1,
        ensures
            final(self).wf(),
            old(self)@.handshake matches HandshakeView::AwaitingT1 { k1, r1, key_count } ==> if old(
                self,
            )@.p > key_count {
                r == Err::<(), AuthError>(AuthError::TooFewKeysForC2) && final(self)@ == (AuthState {
                    t1: Some(u64_from_be(t1_bytes@)),
                    c2: Seq::empty(),
                    handshake: HandshakeView::Idle,
                    ..old(self)@
                })
            } else {
                r is Ok && final(self)@ == (AuthState {
                    t1: Some(u64_from_be(t1_bytes@)),
                    c2: Seq::empty(),
                    handshake: HandshakeView::SelectingC2 { k1, r1, key_count },
                    ..old(self)@
                })
            },
    {
        let ctx = match self.handshake {
            Handshake::AwaitingT1(c) => c,
            _ => {
                return Err(AuthError::TooFewKeysForC2);
            },
        };
        let t1 = u64_from_be_bytes(t1_bytes);
        self.t1 = Some(t1);
        self.last_c2 = c2_new();
        if (self.p as usize) > ctx.key_count {
            self.handshake = Handshake::Idle;
            return Err(AuthError::TooFewKeysForC2);
        }
        self.handshake = Handshake::SelectingC2(ctx);
        Ok(())
    }

    /// Whether `C2` holds `p` indices.
    pub fn c2_complete(&self) -> (done: bool)
        ensures
            done == (self@.c2.len() >= self@.p),
    {
        c2_as_slice(&self.last_c2).len() >= self.p as usize
    }

    /// Offers one two-byte random draw to `C2`: its candidate index (the draw
    /// read big-endian, modulo the number of keys, cut to a byte) is added
    /// unless `C2` already holds it.
    pub fn offer_c2_draw(&mut self, draw: [u8; 2])
        requires
            old(self).wf(),
            old(self)@.handshake is SelectingC2,
            old(self)@.c2.len() < old(self)@.p,
        ensures
            final(self).wf(),
            old(self)@.handshake matches HandshakeView::SelectingC2 { key_count, .. } ==> {
                let cand = c2_candidate(draw@, key_count);
                final(self)@ == (AuthState {
                    c2: if old(self)@.c2.contains(cand) {
                        old(self)@.c2
                    } else {
                        old(self)@.c2.push(cand)
                    },
                    ..old(self)@
                })
            },
    {
        let n = match self.handshake {
            Handshake::SelectingC2(c) => c.key_count,
            _ => {
                return;
            },
        };
        let idx = ((draw[0] as usize) * 256 + (draw[1] as usize)) % n;
        let idx_u8 = #[verifier::truncate] (idx as u8);
        assert(idx_u8 < n) by {
            if idx < 256 {
                assert(idx_u8 == idx);
            }
        }
        assert(idx_u8 == c2_candidate(draw@, n as nat));
        let existing = c2_as_slice(&self.last_c2);
        let mut found = false;
        let mut t: usize = 0;
        while t < existing.len()
            invariant
                t <= existing@.len(),
                found == (exists|m: int| 0 <= m < t && existing@[m] == idx_u8),
            decreases existing@.len() - t,
        {
            if existing[t] == idx_u8 {
                found = true;
            }
            t = t + 1;
        }
        assert(found == existing@.contains(idx_u8));
        if !found {
            let _ = c2_push(&mut self.last_c2, idx_u8);
        }
    }

    /// Builds M3: takes `r2` (eight random bytes) and encrypts
    /// `r1 || t1 || C2 || r2` under `K1` with `iv` (sixteen random bytes).
    /// Returns `IV || ciphertext`. `requires` leaves out a `p` (above 215)
    /// whose M3 does not fit the 256-byte message buffer.
    pub fn build_m3(&mut self, r2_bytes: [u8; 8], iv: &[u8; 16]) -> (m3: Vec<u8>)
        requires
            old(self).wf(),
            old(self)@.handshake is SelectingC2,
            old(self)@.c2.len() >= old(self)@.p,
            IV_LEN + padded_len((24 + old(self)@.p) as nat) <= AES_IV_AND_PAD_BUF,
        ensures
            final(self).wf(),
            m3@.len() == IV_LEN + padded_len((24 + old(self)@.p) as nat),
            old(self)@.c2.len() == old(self)@.p,
            final(self)@ == (AuthState {
                r2: Some(r2_bytes@),
                handshake: HandshakeView::Idle,
                ..old(self)@
            }),
            old(self)@.t1 is Some,
            old(self)@.handshake matches HandshakeView::SelectingC2 { k1, r1, .. } ==> {
                let pt = m3_plaintext(r1, old(self)@.t1->0, old(self)@.c2, r2_bytes@);
                &&& m3@ == iv@ + aes256_cbc_encrypt(k1, iv@, pt)
                &&& aes256_cbc_decrypt(k1, iv@, m3@.skip(IV_LEN as int)) == Some(pt)
            },
    {
        let ctx = match self.handshake {
            Handshake::SelectingC2(c) => c,
            _ => {
                return Vec::new();
            },
        };
        let t1 = match self.t1 {
            Some(t) => t,
            None => {
                return Vec::new();
            },
        };
        self.r2 = Some(r2_bytes);
        let t1_bytes = u64_to_be_bytes(t1);
        let mut plaintext: Vec<u8> = Vec::new();
        plaintext.extend_from_slice(ctx.r1.as_slice());
        plaintext.extend_from_slice(t1_bytes.as_slice());
        plaintext.extend_from_slice(c2_as_slice(&self.last_c2));
        plaintext.extend_from_slice(r2_bytes.as_slice());
        assert(plaintext@ =~= m3_plaintext(ctx.r1@, t1, c2_indices(self.last_c2), r2_bytes@));
        let mut out_buf = vec![0u8; AES_IV_AND_PAD_BUF];
        let n = encrypt_aes_cbc(iv, &ctx.k1, plaintext.as_slice(), out_buf.as_mut_slice());
        let mut payload = Vec::new();
        payload.extend_from_slice(&out_buf.as_slice()[0..n]);
        assert(payload@ =~= out_buf@.take(n as int));
        assert(payload@.skip(IV_LEN as int) =~= out_buf@.subrange(IV_LEN as int, n as int));
        self.handshake = Handshake::Idle;
        payload
    }

    /// The key of M4, `K2 ^ t1`, with `K2` the XOR of the keys that the last
    /// `C2` selects.
    pub fn m4_key(&self) -> (r: Result<[u8; KEY_LEN], AuthError>)
        requires
            self.wf(),
            self@.keys matches Some(ks) ==> ks.len() < MAX_KEYS,
        ensures
            match m4_key_outcome(self@.keys, self@.c2, self@.t1) {
                Err(e) => r == Err::<[u8; KEY_LEN], AuthError>(e),
                Ok(k) => r matches Ok(a) && a@ == k,
            },
    {
        let keys = match self.key_store.get_keys() {
            Ok(k) => k,
            Err(_) => {
                return Err(AuthError::KeysUnavailable);
            },
        };
        let keys = key_list_as_slice(&keys);
        let c2 = c2_as_slice(&self.last_c2);
        if c2.len() == 0 {
            return Err(AuthError::NoC2);
        }
        let k2 = match Self::xor_selected(keys, c2) {
            Some(k) => k,
            None => {
                return Err(AuthError::C2IndexOutOfRange);
            },
        };
        let t1 = match self.t1 {
            Some(v) => v,
            None => {
                return Err(AuthError::T1Missing);
            },
        };
        let t1_bytes = u64_to_be_bytes(t1);
        let mut dec_key = [0u8; KEY_LEN];
        let mut i: usize = 0;
        while i < KEY_LEN
            invariant
                i <= KEY_LEN,
                t1_bytes@ == be_bytes(t1),
                forall|m: int| 0 <= m < i ==> dec_key@[m] == k2@[m] ^ t1_bytes@[m % 8],
            decreases KEY_LEN - i,
        {
            dec_key[i] = k2[i] ^ t1_bytes[i % 8];
            i = i + 1;
        }
        assert(dec_key@ =~= xor_bytes(k2@, expand8(be_bytes(t1))));
        Ok(dec_key)
    }

    /// Checks the plaintext of M4 (`r2 || t2 || ...`) against the `r2` that M3
    /// carried and, where it matches, sets the session key to `t1 ^ t2` spread
    /// over 32 bytes. On failure nothing changes.
    pub fn accept_m4_plaintext(&mut self, plaintext: &[u8]) -> (r: Result<(), AuthError>)
        requires
            old(self).wf(),
        ensures
            final(self).wf(),
            match m4_outcome(old(self)@.t1, old(self)@.r2, plaintext@) {
                Err(e) => r == Err::<(), AuthError>(e) && final(self)@ == old(self)@,
                Ok(sk) => r is Ok && final(self)@ == (AuthState {
                    session_key: Some(sk),
                    ..old(self)@
                }),
            },
    {
        let t1 = match self.t1 {
            Some(v) => v,
            None => {
                return Err(AuthError::T1Missing);
            },
        };
        if plaintext.len() < 16 {
            return Err(AuthError::M4TooShort);
        }
        let mut r2_recv = [0u8; 8];
        let mut t2_b = [0u8; 8];
        let mut j: usize = 0;
        while j < 8
            invariant
                j <= 8,
                plaintext@.len() >= 16,
                forall|m: int| 0 <= m < j ==> r2_recv@[m] == plaintext@[m],
                forall|m: int| 0 <= m < j ==> t2_b@[m] == plaintext@[8 + m],
            decreases 8 - j,
        {
            r2_recv[j] = plaintext[j];
            t2_b[j] = plaintext[8 + j];
            j = j + 1;
        }
        assert(r2_recv@ =~= plaintext@.take(8));
        assert(t2_b@ =~= plaintext@.subrange(8, 16));
        match self.r2 {
            Some(stored_r2) => {
                let mut same = true;
                let mut k: usize = 0;
                while k < 8
                    invariant
                        k <= 8,
                        same == (forall|m: int| 0 <= m < k ==> stored_r2@[m] == r2_recv@[m]),
                    decreases 8 - k,
                {
                    if stored_r2[k] != r2_recv[k] {
                        same = false;
                    }
                    k = k + 1;
                }
                if !same {
                    assert(stored_r2@ != r2_recv@);
                    return Err(AuthError::R2Mismatch);
                }
                assert(stored_r2@ =~= r2_recv@);
            },
            None => {
                return Err(AuthError::R2Missing);
            },
        }
        let t2 = u64_from_be_bytes(t2_b);
        let t1_bytes = u64_to_be_bytes(t1);
        let t2_exp = u64_to_be_bytes(t2);
        proof {
            lemma_be_roundtrip(t2_b@);
        }
        let mut sess = [0u8; KEY_LEN];
        let mut i: usize = 0;
        while i < KEY_LEN
            invariant
                i <= KEY_LEN,
                forall|m: int| 0 <= m < i ==> sess@[m] == t1_bytes@[m % 8] ^ t2_exp@[m % 8],
            decreases KEY_LEN - i,
        {
            sess[i] = t1_bytes[i % 8] ^ t2_exp[i % 8];
            i = i + 1;
        }
        assert(sess@ =~= xor_bytes(expand8(be_bytes(t1)), expand8(plaintext@.subrange(8, 16))));
        self.session_key = Some(sess);
        Ok(())
    }

    /// Handles M4 (`IV || ciphertext`): forms the key, decrypts, and accepts
    /// the plaintext. Where the ciphertext does not decrypt under the key the
    /// handshake stops with `DecryptionFailed`. On failure nothing changes.
    /// `requires` leaves out an M4 without a full IV, or whose ciphertext does
    /// not fit the 256-byte plaintext buffer.
    pub fn process_m4(&mut self, m4: &[u8]) -> (r: Result<(), AuthError>)
        requires
            old(self).wf(),
            old(self)@.keys matches Some(ks) ==> ks.len() < MAX_KEYS,
            IV_LEN <= m4@.len() <= IV_LEN + AES_IV_AND_PAD_BUF,
        ensures
            final(self).wf(),
            match m4_key_outcome(old(self)@.keys, old(self)@.c2, old(self)@.t1) {
                Err(e) => r == Err::<(), AuthError>(e) && final(self)@ == old(self)@,
                Ok(k) => match aes256_cbc_decrypt(k, m4@.take(IV_LEN as int), m4@.skip(IV_LEN as int)) {
                    None => r == Err::<(), AuthError>(AuthError::DecryptionFailed) && final(self)@
                        == old(self)@,
                    Some(pt) => match m4_outcome(old(self)@.t1, old(self)@.r2, pt) {
                        Err(e) => r == Err::<(), AuthError>(e) && final(self)@ == old(self)@,
                        Ok(sk) => r is Ok && final(self)@ == (AuthState {
                            session_key: Some(sk),
                            ..old(self)@
                        }),
                    },
                },
            },
    {
        let dec_key = match self.m4_key() {
            Ok(k) => k,
            Err(e) => {
                return Err(e);
            },
        };
        let mut plain_buf = vec![0u8; AES_IV_AND_PAD_BUF];
        let n = match decrypt_aes_cbc(&dec_key, m4, plain_buf.as_mut_slice()) {
            Some(n) => n,
            None => {
                return Err(AuthError::DecryptionFailed);
            },
        };
        let plaintext = &plain_buf.as_slice()[0..n];
        self.accept_m4_plaintext(plaintext)
    }

    /// Records telemetry that the server acknowledged.
    pub fn append_acked_telemetry(&mut self, data: &[u8])
        requires
            old(self).wf(),
        ensures
            final(self).wf(),
            final(self)@ == (AuthState { telemetry: old(self)@.telemetry + data@, ..old(self)@ }),
    {
        self.telemetry_buffer.extend_from_slice(data);
        assert(self.telemetry_buffer@ =~= old(self)@.telemetry + data@);
    }

    /// Forgets the acknowledged telemetry.
    pub fn clear_telemetry_buffer(&mut self)
        requires
            old(self).wf(),
        ensures
            final(self).wf(),
            final(self)@ == (AuthState { telemetry: Seq::empty(), ..old(self)@ }),
    {
        self.telemetry_buffer = Vec::new();
    }

    /// Replaces every stored key by itself XOR its update mask, where the tag
    /// is the HMAC-SHA-256 of all keys back to back keyed by the acknowledged
    /// telemetry, and stores the result with `iv` (sixteen random bytes) as
    /// the IV, under the same device secret. An empty store is refused and
    /// left as it was.
    pub fn update_keys(&mut self, iv: &[u8; 16]) -> (r: Result<(), Error>)
        requires
            old(self).wf(),
            old(self)@.keys matches Some(ks) ==> ks.len() < MAX_KEYS,
        ensures
            final(self).wf(),
            match old(self)@.keys {
                None => r == Err::<(), Error>(Error::NotInitialized) && final(self)@ == old(self)@,
                Some(ks) => r is Ok && final(self)@ == (AuthState {
                    keys: Some(rotate_keys(ks, update_tag(ks, old(self)@.telemetry))),
                    sealed: iv@ + aes256_cbc_encrypt(
                        old(self)@.secret,
                        iv@,
                        concat_keys(rotate_keys(ks, update_tag(ks, old(self)@.telemetry))),
                    ),
                    ..old(self)@
                }),
            },
            old(self)@.keys matches Some(ks) ==> (final(self)@.keys matches Some(nk) && nk.len() == ks.len()
                && forall|i: int, b: int|
                0 <= i < ks.len() && 0 <= b < 32 ==> #[trigger] nk[i][b] == ks[i][b] ^ (hmac_sha256(
                    old(self)@.telemetry,
                    concat_keys(ks),
                )[b] ^ ((i % 256) as u8))),
    {
        let keys_v = match self.key_store.get_keys() {
            Ok(k) => k,
            Err(e) => {
                return Err(e);
            },
        };
        let keys = key_list_as_slice(&keys_v);
        let ghost ks = key_views(keys@);
        let mut concat_old_keys: Vec<u8> = Vec::new();
        let mut i: usize = 0;
        while i < keys.len()
            invariant
                i <= keys@.len(),
                concat_old_keys@ == flatten_keys(keys@.take(i as int)),
            decreases keys@.len() - i,
        {
            concat_old_keys.extend_from_slice(keys[i].as_slice());
            assert(keys@.take(i + 1).drop_last() =~= keys@.take(i as int));
            assert(concat_old_keys@ =~= flatten_keys(keys@.take(i + 1)));
            i = i + 1;
        }
        assert(keys@.take(keys@.len() as int) =~= keys@);
        proof {
            lemma_flatten_is_concat(keys@);
            lemma_flatten_keys_index(keys@);
        }
        let mut h = [0u8; KEY_LEN];
        crate::crypto::hmac(concat_old_keys.as_slice(), self.telemetry_buffer.as_slice(), &mut h);
        let ghost tag = h@;
        assert(tag == update_tag(ks, self.telemetry_buffer@));
        let k = KEY_LEN;
        let mut new_keys: Vec<[u8; KEY_LEN]> = Vec::new();
        let mut idx: usize = 0;
        let mut vault_partition_index: u8 = 0;
        while idx < concat_old_keys.len()
            invariant
                concat_old_keys@ == flatten_keys(keys@),
                concat_old_keys@.len() == 32 * keys@.len(),
                keys@.len() < MAX_KEYS,
                h@ == tag,
                k == 32,
                idx == 32 * new_keys@.len(),
                new_keys@.len() <= keys@.len(),
                vault_partition_index == (new_keys@.len() % 256) as u8,
                forall|m: int, b: int|
                    0 <= m < keys@.len() && 0 <= b < 32 ==> #[trigger] flatten_keys(keys@)[32 * m + b]
                        == keys@[m]@[b],
                forall|m: int|
                    0 <= m < new_keys@.len() ==> #[trigger] new_keys@[m]@ == xor_bytes(
                        keys@[m]@,
                        update_mask(tag, m),
                    ),
            decreases concat_old_keys@.len() - idx,
        {
            let ghost m = new_keys@.len() as int;
            assert(m < keys@.len());
            let rest = concat_old_keys.len() - idx;
            let take = if k < rest {
                k
            } else {
                rest
            };
            assert(take == 32);
            let mut vault_partition = [0u8; KEY_LEN];
            let mut b: usize = 0;
            while b < take
                invariant
                    take == 32,
                    b <= take,
                    idx == 32 * m,
                    0 <= m < keys@.len(),
                    concat_old_keys@.len() == 32 * keys@.len(),
                    concat_old_keys@ == flatten_keys(keys@),
                    forall|mm: int, bb: int|
                        0 <= mm < keys@.len() && 0 <= bb < 32 ==> #[trigger] flatten_keys(
                            keys@,
                        )[32 * mm + bb] == keys@[mm]@[bb],
                    forall|c: int| 0 <= c < b ==> vault_partition@[c] == keys@[m]@[c],
                decreases take - b,
            {
                vault_partition[b] = concat_old_keys[idx + b];
                b = b + 1;
            }
            let mut mask = [0u8; KEY_LEN];
            let mut b: usize = 0;
            while b < k
                invariant
                    k == 32,
                    b <= k,
                    h@ == tag,
                    forall|c: int| 0 <= c < b ==> mask@[c] == tag[c] ^ vault_partition_index,
                decreases k - b,
            {
                mask[b] = h[b] ^ vault_partition_index;
                b = b + 1;
            }
            let mut new_key = [0u8; KEY_LEN];
            let mut b: usize = 0;
            while b < k
                invariant
                    k == 32,
                    b <= k,
                    forall|c: int| 0 <= c < b ==> new_key@[c] == vault_partition@[c] ^ mask@[c],
                decreases k - b,
            {
                new_key[b] = vault_partition[b] ^ mask[b];
                b = b + 1;
            }
            assert(new_key@ =~= xor_bytes(keys@[m]@, update_mask(tag, m)));
            new_keys.push(new_key);
            idx = idx + take;
            vault_partition_index = vault_partition_index.wrapping_add(1);
            assert(vault_partition_index == ((m + 1) % 256) as u8);
        }
        assert(new_keys@.len() == keys@.len());
        let count = new_keys.len();
        let r = self.key_store.store_keys(new_keys.as_slice(), count, iv);
        proof {
            assert(new_keys@.take(count as int) =~= new_keys@);
            assert(key_views(new_keys@) =~= rotate_keys(ks, tag));
            lemma_flatten_is_concat(new_keys@);
            lemma_update_masks_by_index(ks, tag);
        }
        r
    }

    /// Whether a session key has been established.
    pub fn has_session_key(&self) -> (b: bool)
        ensures
            b == self@.session_key is Some,
    {
        self.session_key.is_some()
    }

    /// Encrypts a telemetry payload under the session key with `iv` (sixteen
    /// random bytes) for sending; `None` where no session key exists.
    /// `requires` leaves out payloads whose encryption does not fit the
    /// 256-byte message buffer.
    pub fn send_telemetry(&self, payload: &[u8], iv: &[u8; 16]) -> (r: Option<Vec<u8>>)
        requires
            self@.session_key is Some ==> payload@.len() < 240,
        ensures
            match self@.session_key {
                None => r is None,
                Some(k) => r matches Some(v) && {
                    &&& v@ == iv@ + aes256_cbc_encrypt(k, iv@, payload@)
                    &&& v@.len() == IV_LEN + padded_len(payload@.len())
                    &&& aes256_cbc_decrypt(k, iv@, v@.skip(IV_LEN as int)) == Some(payload@)
                },
            },
    {
        let session_key = match self.session_key {
            Some(k) => k,
            None => {
                return None;
            },
        };
        let mut out_buf = vec![0u8; AES_IV_AND_PAD_BUF];
        let n = encrypt_aes_cbc(iv, &session_key, payload, out_buf.as_mut_slice());
        let mut v = Vec::new();
        v.extend_from_slice(&out_buf.as_slice()[0..n]);
        assert(v@ =~= out_buf@.take(n as int));
        assert(v@.skip(IV_LEN as int) =~= out_buf@.subrange(IV_LEN as int, n as int));
        Some(v)
    }
}


/// Updating the keys twice with the same tag gives the keys back: each key
/// is XORed with the same mask twice. The update keeps the number of keys.
pub proof fn lemma_rotate_keys_involution(keys: Seq<Seq<u8>>, tag: Seq<u8>)
    requires
        keys_wf(keys),
        tag.len() == 32,
    ensures
        rotate_keys(keys, tag).len() == keys.len(),
        rotate_keys(rotate_keys(keys, tag), tag) == keys,
{
    let once = rotate_keys(keys, tag);
    let twice = rotate_keys(once, tag);
    assert forall|i: int| 0 <= i < keys.len() implies #[trigger] twice[i] == keys[i] by {
        let m = update_mask(tag, i);
        assert(keys[i].len() == 32);
        assert forall|b: int| 0 <= b < 32 implies twice[i][b] == keys[i][b] by {
            let k = keys[i][b];
            let x = m[b];
            assert((k ^ x) ^ x == k) by (bit_vector);
        }
        assert(twice[i] =~= keys[i]);
    }
    assert(twice =~= keys);
}

/// Once `C2` is complete it holds exactly `p` distinct indices, each naming
/// one of the keys the store held when M2 was handled.
pub proof fn lemma_c2_complete(m: &AuthManager)
    requires
        m.wf(),
        m@.handshake is SelectingC2,
        m@.c2.len() >= m@.p,
    ensures
        m@.handshake matches HandshakeView::SelectingC2 { key_count, .. } ==> {
            &&& m@.c2.len() == m@.p
            &&& all_distinct(m@.c2)
            &&& all_below(m@.c2, key_count)
        },
{
}

/// The session key is `t1 ^ t2` spread over 32 bytes: spreading the XOR of
/// the two 8-byte values gives the XOR of their spreads.
pub proof fn lemma_session_key_is_xor(t1: u64, t2_bytes: Seq<u8>)
    requires
        t2_bytes.len() == 8,
    ensures
        xor_bytes(expand8(be_bytes(t1)), expand8(t2_bytes)) == expand8(xor_bytes(be_bytes(t1), t2_bytes)),
{
    assert(xor_bytes(expand8(be_bytes(t1)), expand8(t2_bytes)) =~= expand8(
        xor_bytes(be_bytes(t1), t2_bytes),
    ));
}


/// Byte `b` of key `i` after an update with `tag` is byte `b` of the old
/// key `i`, XOR byte `b` of the tag, XOR the key's index taken modulo 256:
/// the fifth key of a store (index 4) is masked with `tag[b] ^ 0x04`, the
/// 257th again with `tag[b] ^ 0x00`. The number of keys stays the same.
pub proof fn lemma_update_masks_by_index(keys: Seq<Seq<u8>>, tag: Seq<u8>)
    requires
        keys_wf(keys),
        tag.len() == 32,
    ensures
        rotate_keys(keys, tag).len() == keys.len(),
        forall|i: int, b: int|
            0 <= i < keys.len() && 0 <= b < 32 ==> #[trigger] rotate_keys(keys, tag)[i][b] == keys[i][b]
                ^ (tag[b] ^ ((i % 256) as u8)),
{
    assert forall|i: int, b: int| 0 <= i < keys.len() && 0 <= b < 32 implies #[trigger] rotate_keys(
        keys,
        tag,
    )[i][b] == keys[i][b] ^ (tag[b] ^ ((i % 256) as u8)) by {
        assert(keys[i].len() == 32);
        assert(rotate_keys(keys, tag)[i] == xor_bytes(keys[i], update_mask(tag, i)));
        assert(update_mask(tag, i)[b] == tag[b] ^ ((i % 256) as u8));
    }
}


/// Eight bytes read big-endian are the number whose base-256 digits they
/// are, most significant first.
pub proof fn lemma_u64_from_be_value(b: Seq<u8>)
    requires
        b.len() == 8,
    ensures
        u64_from_be(b) as int == b[0] * 0x100000000000000 + b[1] * 0x1000000000000 + b[2]
            * 0x10000000000 + b[3] * 0x100000000 + b[4] * 0x1000000 + b[5] * 0x10000 + b[6] * 0x100
            + b[7],
{
    let (b0, b1, b2, b3, b4, b5, b6, b7) = (b[0], b[1], b[2], b[3], b[4], b[5], b[6], b[7]);
    let x = u64_from_be(b);
    assert(x == ((b0 as u64) << 56u64) | ((b1 as u64) << 48u64) | ((b2 as u64) << 40u64) | ((
    b3 as u64) << 32u64) | ((b4 as u64) << 24u64) | ((b5 as u64) << 16u64) | ((b6 as u64) << 8u64)
        | (b7 as u64));
    assert(x == b0 as u64 * 0x100000000000000u64 + b1 as u64 * 0x1000000000000u64 + b2 as u64
        * 0x10000000000u64 + b3 as u64 * 0x100000000u64 + b4 as u64 * 0x1000000u64 + b5 as u64
        * 0x10000u64 + b6 as u64 * 0x100u64 + b7 as u64) by (bit_vector)
        requires
            x == ((b0 as u64) << 56u64) | ((b1 as u64) << 48u64) | ((b2 as u64) << 40u64) | ((
            b3 as u64) << 32u64) | ((b4 as u64) << 24u64) | ((b5 as u64) << 16u64) | ((b6 as u64)
                << 8u64) | (b7 as u64),
    ;
}

} // verus!
