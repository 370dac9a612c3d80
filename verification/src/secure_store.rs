//! The device's key store: the keys are kept only as an AES-256-CBC
//! ciphertext under the device secret `skey`, in a fixed-capacity
//! `heapless::Vec`, and decrypted on each read.
use vstd::prelude::*;
use crate::crypto::{
    aes256_cbc_decrypt, aes256_cbc_encrypt, decrypt_aes_cbc, encrypt_aes_cbc, padded_len, IV_LEN, KEY_LEN,
};

verus! {

/// Length of the device secret.
pub const SKEY_LEN: usize = 32;

/// Most keys the store holds.
pub const MAX_KEYS: usize = 1024;

/// Capacity of the plaintext buffer: every key, back to back.
pub const PLAINTEXT_BUF_LEN: usize = MAX_KEYS * KEY_LEN;

/// Capacity of the ciphertext buffer: the IV and the padded plaintext buffer
/// (`encrypted_buf_len(PLAINTEXT_BUF_LEN)`).
pub const CIPHERTEXT_BUF_LEN: usize = IV_LEN + (PLAINTEXT_BUF_LEN / 16 + 1) * 16;

/// `heapless::Vec`, the fixed-capacity vector of the `heapless` crate,
/// declared so that it can stand in signatures and fields. Its contents are
/// opaque here: what each vector holds is named per use below.
#[verifier::external_type_specification]
#[verifier::external_body]
#[verifier::reject_recursive_types(T)]
pub struct ExHeaplessVec<T, const N: usize>(heapless::Vec<T, N>);

/// The bytes held by the store's ciphertext buffer.
pub uninterp spec fn sealed_bytes(v: heapless::Vec<u8, CIPHERTEXT_BUF_LEN>) -> Seq<u8>;

/// The bytes held by the plaintext buffer that `store_keys` fills.
pub uninterp spec fn plain_bytes(v: heapless::Vec<u8, PLAINTEXT_BUF_LEN>) -> Seq<u8>;

/// The keys held by the list that `get_keys` returns.
pub uninterp spec fn key_list(v: heapless::Vec<[u8; 32], MAX_KEYS>) -> Seq<[u8; 32]>;

/// `heapless::Vec::new`: an empty vector.
#[verifier::external_body]
fn sealed_new() -> (v: heapless::Vec<u8, CIPHERTEXT_BUF_LEN>)
    ensures
        sealed_bytes(v) == Seq::<u8>::empty(),
{
    heapless::Vec::new()
}

/// `heapless::Vec::extend_from_slice`: where the slice fits in what is left of
/// the capacity it is appended and `Ok` comes back; else nothing changes and
/// `Err` comes back.
#[verifier::external_body]
fn sealed_extend(v: &mut heapless::Vec<u8, CIPHERTEXT_BUF_LEN>, other: &[u8]) -> (r: Result<(), ()>)
    ensures
        sealed_bytes(*old(v)).len() + other@.len() <= CIPHERTEXT_BUF_LEN ==> (r is Ok
            && sealed_bytes(*final(v)) == sealed_bytes(*old(v)) + other@),
        sealed_bytes(*old(v)).len() + other@.len() > CIPHERTEXT_BUF_LEN ==> (r is Err
            && sealed_bytes(*final(v)) == sealed_bytes(*old(v))),
{
    v.extend_from_slice(other)
}

/// `heapless::Vec::as_slice`: the items, in order.
#[verifier::external_body]
fn sealed_as_slice(v: &heapless::Vec<u8, CIPHERTEXT_BUF_LEN>) -> (s: &[u8])
    ensures
        s@ == sealed_bytes(*v),
{
    v.as_slice()
}

/// `heapless::Vec::new`: an empty vector.
#[verifier::external_body]
fn plain_new() -> (v: heapless::Vec<u8, PLAINTEXT_BUF_LEN>)
    ensures
        plain_bytes(v) == Seq::<u8>::empty(),
{
    heapless::Vec::new()
}

/// `heapless::Vec::push`: below capacity the item is appended and `Ok` comes
/// back; at capacity nothing changes and `Err` hands the item back.
#[verifier::external_body]
fn plain_push(v: &mut heapless::Vec<u8, PLAINTEXT_BUF_LEN>, item: u8) -> (r: Result<(), u8>)
    ensures
        plain_bytes(*old(v)).len() < PLAINTEXT_BUF_LEN ==> (r is Ok
            && plain_bytes(*final(v)) == plain_bytes(*old(v)).push(item)),
        plain_bytes(*old(v)).len() >= PLAINTEXT_BUF_LEN ==> (r == Err::<(), u8>(item)
            && plain_bytes(*final(v)) == plain_bytes(*old(v))),
{
    v.push(item)
}

/// `heapless::Vec::as_slice`: the items, in order.
#[verifier::external_body]
fn plain_as_slice(v: &heapless::Vec<u8, PLAINTEXT_BUF_LEN>) -> (s: &[u8])
    ensures
        s@ == plain_bytes(*v),
{
    v.as_slice()
}

/// `heapless::Vec::new`: an empty vector.
#[verifier::external_body]
fn key_list_new() -> (v: heapless::Vec<[u8; 32], MAX_KEYS>)
    ensures
        key_list(v) == Seq::<[u8; 32]>::empty(),
{
    heapless::Vec::new()
}

/// `heapless::Vec::push`: below capacity the item is appended and `Ok` comes
/// back; at capacity nothing changes and `Err` hands the item back.
#[verifier::external_body]
fn key_list_push(v: &mut heapless::Vec<[u8; 32], MAX_KEYS>, item: [u8; 32]) -> (r: Result<(), [u8; 32]>)
    ensures
        key_list(*old(v)).len() < MAX_KEYS ==> (r is Ok
            && key_list(*final(v)) == key_list(*old(v)).push(item)),
        key_list(*old(v)).len() >= MAX_KEYS ==> (r == Err::<(), [u8; 32]>(item)
            && key_list(*final(v)) == key_list(*old(v))),
{
    v.push(item)
}

/// `heapless::Vec::as_slice`: the items, in order.
#[verifier::external_body]
pub(crate) fn key_list_as_slice(v: &heapless::Vec<[u8; 32], MAX_KEYS>) -> (s: &[[u8; 32]])
    ensures
        s@ == key_list(*v),
{
    v.as_slice()
}


/// Length of `IV || ciphertext` for a plaintext of `plaintext_len` bytes.
pub fn encrypted_buf_len(plaintext_len: usize) -> (n: usize)
    requires
        plaintext_len <= usize::MAX - 32,
    ensures
        n == IV_LEN + padded_len(plaintext_len as nat),
{
    assert((plaintext_len / 16 + 1) * 16 <= plaintext_len + 16) by (nonlinear_arith);
    let padded_len = (plaintext_len / 16 + 1) * 16;
    IV_LEN + padded_len
}

/// Errors of the key store.
#[derive(Debug, PartialEq, Eq, Structural)]
pub enum Error {
    /// More keys than the store holds.
    TooManyKeys,
    /// Nothing has been stored yet.
    NotInitialized,
}

/// The keys laid out back to back.
pub open spec fn flatten_keys(keys: Seq<[u8; 32]>) -> Seq<u8>
    decreases keys.len(),
{
    if keys.len() == 0 {
        Seq::empty()
    } else {
        flatten_keys(keys.drop_last()) + keys.last()@
    }
}

/// The first `n` 32-byte blocks of `bytes`.
pub open spec fn split_keys(bytes: Seq<u8>, n: nat) -> Seq<Seq<u8>> {
    Seq::new(n, |i: int| bytes.subrange(32 * i, 32 * i + 32))
}

/// Each key as a byte sequence.
pub open spec fn key_views(keys: Seq<[u8; 32]>) -> Seq<Seq<u8>> {
    keys.map_values(|k: [u8; 32]| k@)
}

/// Byte sequences laid out back to back.
pub open spec fn concat_keys(keys: Seq<Seq<u8>>) -> Seq<u8>
    decreases keys.len(),
{
    if keys.len() == 0 {
        Seq::empty()
    } else {
        concat_keys(keys.drop_last()) + keys.last()
    }
}

/// Flattening the keys is concatenating their byte sequences.
pub proof fn lemma_flatten_is_concat(keys: Seq<[u8; 32]>)
    ensures
        flatten_keys(keys) == concat_keys(key_views(keys)),
    decreases keys.len(),
{
    if keys.len() > 0 {
        lemma_flatten_is_concat(keys.drop_last());
        assert(key_views(keys).drop_last() =~= key_views(keys.drop_last()));
    }
}

/// Byte `32 * i + j` of the flattened keys is byte `j` of key `i`.
pub proof fn lemma_flatten_keys_index(keys: Seq<[u8; 32]>)
    ensures
        flatten_keys(keys).len() == 32 * keys.len(),
        forall|i: int, j: int|
            0 <= i < keys.len() && 0 <= j < 32 ==> #[trigger] flatten_keys(keys)[32 * i + j]
                == keys[i]@[j],
    decreases keys.len(),
{
    if keys.len() > 0 {
        let init = keys.drop_last();
        lemma_flatten_keys_index(init);
        assert forall|i: int, j: int| 0 <= i < keys.len() && 0 <= j < 32 implies #[trigger] flatten_keys(
            keys,
        )[32 * i + j] == keys[i]@[j] by {
            if i < keys.len() - 1 {
                assert(init[i] == keys[i]);
                assert(32 * i + j < 32 * init.len()) by (nonlinear_arith)
                    requires
                        0 <= i < init.len(),
                        0 <= j < 32,
                ;
            } else {
                assert(32 * i + j == 32 * init.len() + j);
            }
        }
    }
}

/// Cutting the flattened keys into blocks of 32 gives the keys back.
pub proof fn lemma_split_flatten(keys: Seq<[u8; 32]>)
    ensures
        split_keys(flatten_keys(keys), keys.len()) == key_views(keys),
{
    lemma_flatten_keys_index(keys);
    let f = flatten_keys(keys);
    assert forall|i: int| 0 <= i < keys.len() implies #[trigger] split_keys(f, keys.len())[i]
        == key_views(keys)[i] by {
        assert(32 * i + 32 <= 32 * keys.len()) by (nonlinear_arith)
            requires
                0 <= i < keys.len(),
        ;
        let a = f.subrange(32 * i, 32 * i + 32);
        assert forall|j: int| 0 <= j < 32 implies a[j] == keys[i]@[j] by {
            assert(a[j] == f[32 * i + j]);
        }
        assert(a =~= keys[i]@);
    }
    assert(split_keys(f, keys.len()) =~= key_views(keys));
}

/// A PKCS#7-padded run of `n` whole keys is `32 * n + 16` bytes long.
pub proof fn lemma_padded_keys_len(n: nat)
    ensures
        padded_len(32 * n) == 32 * n + 16,
{
    assert((32 * n) / 16 == 2 * n) by (nonlinear_arith);
}

/// Every key of a well-formed store is 32 bytes long.
pub proof fn lemma_view_keys_wf(s: &DeviceKeyStore)
    requires
        s.wf(),
    ensures
        s@ matches Some(ks) ==> forall|i: int| 0 <= i < ks.len() ==> #[trigger] ks[i].len() == 32,
{
}

/// The device key store.
pub struct DeviceKeyStore {
    skey: [u8; SKEY_LEN],
    ciphertext: heapless::Vec<u8, CIPHERTEXT_BUF_LEN>,
    key_count: usize,
}

impl View for DeviceKeyStore {
    /// `None` before the first store; else the stored keys, in order.
    type V = Option<Seq<Seq<u8>>>;

    closed spec fn view(&self) -> Option<Seq<Seq<u8>>> {
        let ct = sealed_bytes(self.ciphertext);
        if ct.len() == 0 {
            None
        } else {
            match aes256_cbc_decrypt(self.skey@, ct.take(IV_LEN as int), ct.skip(IV_LEN as int)) {
                Some(p) => Some(split_keys(p, self.key_count as nat)),
                None => Some(Seq::empty()),
            }
        }
    }
}

impl DeviceKeyStore {
    /// The device secret the keys are encrypted under.
    pub closed spec fn secret(&self) -> Seq<u8> {
        self.skey@
    }

    /// What the store keeps: empty before the first store, else the IV
    /// followed by the encrypted keys.
    pub closed spec fn sealed(&self) -> Seq<u8> {
        sealed_bytes(self.ciphertext)
    }

    /// Well-formedness: the ciphertext is empty, or it is an IV followed by the
    /// encryption under the secret of exactly `key_count` keys.
    pub closed spec fn wf(&self) -> bool {
        let ct = sealed_bytes(self.ciphertext);
        &&& ct.len() <= CIPHERTEXT_BUF_LEN
        &&& ct.len() == 0 ==> self.key_count == 0
        &&& ct.len() > 0 ==> {
            &&& self.key_count <= MAX_KEYS
            &&& ct.len() == IV_LEN + padded_len(32 * self.key_count as nat)
            &&& aes256_cbc_decrypt(self.skey@, ct.take(IV_LEN as int), ct.skip(IV_LEN as int))
                matches Some(p) && p.len() == 32 * self.key_count
        }
    }

    /// A store that holds nothing yet and seals with `skey`.
    pub fn init(skey: [u8; SKEY_LEN]) -> (s: Self)
        ensures
            s.wf(),
            s@ is None,
            s.secret() == skey@,
            s.sealed() == Seq::<u8>::empty(),
    {
        DeviceKeyStore { skey, ciphertext: sealed_new(), key_count: 0 }
    }

    /// What the store keeps: the IV followed by the encrypted keys, or
    /// nothing before the first store.
    pub fn ciphertext(&self) -> (c: &[u8])
        ensures
            c@ == self.sealed(),
    {
        sealed_as_slice(&self.ciphertext)
    }

    /// How many keys the store holds; `None` before the first store.
    pub fn stored_count(&self) -> (n: Option<usize>)
        requires
            self.wf(),
        ensures
            match self@ {
                None => n is None,
                Some(ks) => n == Some(ks.len() as usize),
            },
    {
        if sealed_as_slice(&self.ciphertext).len() == 0 {
            None
        } else {
            Some(self.key_count)
        }
    }

    /// Encrypts the first `key_count` keys under the secret, with `iv` (fresh
    /// random bytes) as the IV, and keeps them in place of what was stored.
    /// More than `MAX_KEYS` keys are refused and leave the store as it was.
    pub fn store_keys(&mut self, keys: &[[u8; KEY_LEN]], key_count: usize, iv: &[u8; 16]) -> (r: Result<(), Error>)
        requires
            old(self).wf(),
            key_count <= MAX_KEYS ==> key_count <= keys@.len(),
        ensures
            final(self).wf(),
            final(self).secret() == old(self).secret(),
            key_count > MAX_KEYS ==> r == Err::<(), Error>(Error::TooManyKeys) && final(self)@ == old(self)@
                && final(self).sealed() == old(self).sealed(),
            key_count <= MAX_KEYS ==> r is Ok && final(self)@ == Some(key_views(keys@.take(key_count as int)))
                && final(self).sealed() == iv@ + aes256_cbc_encrypt(
                old(self).secret(),
                iv@,
                flatten_keys(keys@.take(key_count as int)),
            ),
    {
        if key_count > MAX_KEYS {
            return Err(Error::TooManyKeys);
        }
        let mut plaintext = plain_new();
        let mut i: usize = 0;
        while i < key_count
            invariant
                i <= key_count <= MAX_KEYS,
                key_count <= keys@.len(),
                plain_bytes(plaintext) == flatten_keys(keys@.take(i as int)),
                plain_bytes(plaintext).len() == 32 * i,
            decreases key_count - i,
        {
            let key = &keys[i];
            let mut j: usize = 0;
            while j < KEY_LEN
                invariant
                    i < key_count <= MAX_KEYS,
                    key_count <= keys@.len(),
                    *key == keys@[i as int],
                    j <= KEY_LEN,
                    plain_bytes(plaintext) == flatten_keys(keys@.take(i as int)) + key@.take(j as int),
                    plain_bytes(plaintext).len() == 32 * i + j,
                decreases KEY_LEN - j,
            {
                assert(32 * i + j < PLAINTEXT_BUF_LEN) by (nonlinear_arith)
                    requires
                        i < MAX_KEYS,
                        j < 32,
                ;
                match plain_push(&mut plaintext, key[j]) {
                    Ok(_) => {},
                    Err(_) => {
                        return Err(Error::TooManyKeys);
                    },
                }
                assert(key@.take(j as int).push(key@[j as int]) =~= key@.take(j + 1));
                j = j + 1;
            }
            assert(keys@.take(i + 1).drop_last() =~= keys@.take(i as int));
            assert(key@.take(32) =~= key@);
            i = i + 1;
        }
        proof {
            lemma_flatten_keys_index(keys@.take(key_count as int));
            lemma_padded_keys_len(key_count as nat);
        }
        let mut out_buf = vec![0u8; CIPHERTEXT_BUF_LEN];
        let pt = plain_as_slice(&plaintext);
        let n = encrypt_aes_cbc(iv, &self.skey, pt, out_buf.as_mut_slice());
        let sealed = &out_buf.as_slice()[0..n];
        self.ciphertext = sealed_new();
        match sealed_extend(&mut self.ciphertext, sealed) {
            Ok(_) => {},
            Err(_) => {
                return Err(Error::TooManyKeys);
            },
        }
        self.key_count = key_count;
        proof {
            let ct = sealed_bytes(self.ciphertext);
            assert(ct =~= out_buf@.take(n as int));
            assert(ct.take(IV_LEN as int) =~= iv@);
            assert(ct.skip(IV_LEN as int) =~= out_buf@.subrange(IV_LEN as int, n as int));
            lemma_split_flatten(keys@.take(key_count as int));
        }
        Ok(())
    }

    /// Decrypts the store and returns the keys it holds, in order.
    /// `requires` leaves out a store of `MAX_KEYS` keys, whose ciphertext does
    /// not fit the decryption buffer.
    pub fn get_keys(&self) -> (r: Result<heapless::Vec<[u8; KEY_LEN], MAX_KEYS>, Error>)
        requires
            self.wf(),
            self@ matches Some(ks) ==> ks.len() < MAX_KEYS,
        ensures
            match self@ {
                None => r == Err::<heapless::Vec<[u8; KEY_LEN], MAX_KEYS>, Error>(Error::NotInitialized),
                Some(ks) => r matches Ok(v) && key_views(key_list(v)) == ks,
            },
    {
        let ct = sealed_as_slice(&self.ciphertext);
        if ct.len() == 0 {
            return Err(Error::NotInitialized);
        }
        proof {
            lemma_padded_keys_len(self.key_count as nat);
        }
        let mut buf = vec![0u8; PLAINTEXT_BUF_LEN];
        let plain_len = match decrypt_aes_cbc(&self.skey, ct, buf.as_mut_slice()) {
            Some(n) => n,
            None => {
               
                return Err(Error::NotInitialized);
            },
        };
        let ghost p = buf@.take(plain_len as int);
        assert(p.len() == 32 * self.key_count);
        let mut keys = key_list_new();
        let mut i: usize = 0;
        while i < self.key_count
            invariant
                i <= self.key_count < MAX_KEYS,
                plain_len == 32 * self.key_count,
                plain_len <= buf@.len(),
                p == buf@.take(plain_len as int),
                key_list(keys).len() == i,
                forall|k: int| 0 <= k < i ==> #[trigger] key_list(keys)[k]@ == p.subrange(32 * k, 32 * k + 32),
            decreases self.key_count - i,
        {
            let mut key = [0u8; KEY_LEN];
            let base = i * KEY_LEN;
            assert(base + 32 <= plain_len) by (nonlinear_arith)
                requires
                    base == i * 32,
                    i < self.key_count,
                    plain_len == 32 * self.key_count,
            ;
            let mut j: usize = 0;
            while j < KEY_LEN
                invariant
                    j <= KEY_LEN,
                    base + 32 <= plain_len <= buf@.len(),
                    p == buf@.take(plain_len as int),
                    forall|k: int| 0 <= k < j ==> key@[k] == p[base + k],
                decreases KEY_LEN - j,
            {
                key[j] = buf[base + j];
                j = j + 1;
            }
            assert(key@ =~= p.subrange(32 * i, 32 * i + 32));
            match key_list_push(&mut keys, key) {
                Ok(_) => {},
                Err(_) => {
                    return Err(Error::TooManyKeys);
                },
            }
            i = i + 1;
        }
        assert(key_views(key_list(keys)) =~= split_keys(p, self.key_count as nat));
        Ok(keys)
    }
}

} // verus!
