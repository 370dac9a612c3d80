//! AES-256-CBC with PKCS#7 padding and HMAC-SHA-256, as the device uses them.
//!
//! The ciphers come from the `aes`, `cbc` and `cipher` crates and the MAC from
//! `hmac` and `sha2`. What those crates compute is named here and not written
//! out; the functions of this module fix what goes into each call and how the
//! result is laid out in the caller's buffer.
use vstd::prelude::*;

verus! {

/// Length of the CBC initialisation vector that precedes every ciphertext.
pub const IV_LEN: usize = 16;

/// Length of an AES-256 key and of an HMAC-SHA-256 tag.
pub const KEY_LEN: usize = 32;

/// The ciphertext that AES-256-CBC with PKCS#7 padding gives for `plaintext`
/// under `key` and `iv` (the IV itself is not part of it).
pub uninterp spec fn aes256_cbc_encrypt(key: Seq<u8>, iv: Seq<u8>, plaintext: Seq<u8>) -> Seq<u8>;

/// The plaintext that AES-256-CBC decryption with PKCS#7 unpadding gives for
/// `ciphertext` under `key` and `iv`, or `None` where the unpadding fails.
pub uninterp spec fn aes256_cbc_decrypt(key: Seq<u8>, iv: Seq<u8>, ciphertext: Seq<u8>) -> Option<Seq<u8>>;

/// The HMAC-SHA-256 tag of `data` under `key`.
pub uninterp spec fn hmac_sha256(key: Seq<u8>, data: Seq<u8>) -> Seq<u8>;

/// Length of a PKCS#7-padded message of `n` bytes with 16-byte blocks: padding
/// always adds between 1 and 16 bytes.
pub open spec fn padded_len(n: nat) -> nat {
    (n / 16 + 1) * 16
}

/// Calls `Hmac::<Sha256>::new_from_slice(key)`, `Mac::update(data)` and
/// `Mac::finalize`. The contract claims that the tag is a function of the key
/// and the data, named `hmac_sha256`, and is 32 bytes long (the SHA-256 output
/// size). `new_from_slice` accepts keys of every length for HMAC.
#[verifier::external_body]
fn hmac_sha256_tag(key: &[u8], data: &[u8]) -> (tag: [u8; 32])
    ensures
        tag@ == hmac_sha256(key@, data@),
        tag@.len() == 32,
{
    let mut mac = <hmac::Hmac<sha2::Sha256> as hmac::Mac>::new_from_slice(key).unwrap();
    hmac::Mac::update(&mut mac, data);
    hmac::Mac::finalize(mac).into_bytes().into()
}

/// Calls `cbc::Encryptor::<aes::Aes256>::new_from_slices(key, iv)` and
/// `encrypt_padded_b2b_mut::<Pkcs7>` into a buffer of `out_len` bytes. The
/// contract claims that the result is the named ciphertext, that it is as long
/// as PKCS#7 padding makes the message, and that decryption under the same key
/// and IV gives the plaintext back (the correctness of CBC mode with PKCS#7).
/// `requires` leaves out a buffer too short for the padded message, on which
/// the call fails.
#[verifier::external_body]
fn aes256_cbc_encrypt_raw(key: &[u8; 32], iv: &[u8; 16], plaintext: &[u8], out_len: usize) -> (ct: Vec<u8>)
    requires
        out_len >= padded_len(plaintext@.len()),
    ensures
        ct@ == aes256_cbc_encrypt(key@, iv@, plaintext@),
        ct@.len() == padded_len(plaintext@.len()),
        aes256_cbc_decrypt(key@, iv@, ct@) == Some(plaintext@),
{
    let mut buf = vec![0u8; out_len];
    let enc = <cbc::Encryptor<aes::Aes256> as cipher::KeyIvInit>::new_from_slices(key, iv).unwrap();
    cipher::BlockEncryptMut::encrypt_padded_b2b_mut::<cipher::block_padding::Pkcs7>(enc, plaintext, &mut buf)
        .unwrap()
        .to_vec()
}

/// Calls `cbc::Decryptor::<aes::Aes256>::new_from_slices(key, iv)` and
/// `decrypt_padded_b2b_mut::<Pkcs7>` into a buffer as long as the ciphertext.
/// The contract claims that the result is the named decryption, and that a
/// plaintext is shorter than the ciphertext it came from: it is written into
/// a prefix of that buffer, and PKCS#7 unpadding removes at least one byte. `requires` leaves out an IV of another length
/// than 16, which `new_from_slices` refuses.
#[verifier::external_body]
fn aes256_cbc_decrypt_raw(key: &[u8; 32], iv: &[u8], ciphertext: &[u8]) -> (pt: Option<Vec<u8>>)
    requires
        iv@.len() == 16,
    ensures
        match pt {
            Some(v) => aes256_cbc_decrypt(key@, iv@, ciphertext@) == Some(v@)
                && v@.len() < ciphertext@.len(),
            None => aes256_cbc_decrypt(key@, iv@, ciphertext@) is None,
        },
{
    let mut buf = vec![0u8; ciphertext.len()];
    let dec = <cbc::Decryptor<aes::Aes256> as cipher::KeyIvInit>::new_from_slices(key, iv).unwrap();
    match cipher::BlockDecryptMut::decrypt_padded_b2b_mut::<cipher::block_padding::Pkcs7>(dec, ciphertext, &mut buf) {
        Ok(p) => Some(p.to_vec()),
        Err(_) => None,
    }
}

/// Writes the HMAC-SHA-256 tag of `data` under `key` into `out`.
pub fn hmac(data: &[u8], key: &[u8], out: &mut [u8; 32])
    ensures
        final(out)@ == hmac_sha256(key@, data@),
{
    let tag = hmac_sha256_tag(key, data);
    *out = tag;
}

/// Encrypts `plaintext` under `key` with AES-256-CBC and PKCS#7 padding, using
/// `iv` (fresh random bytes) as the IV, and writes `IV || ciphertext` to the
/// front of `out`. Returns the number of bytes written; the rest of `out` is
/// left as it was. `out` must hold the IV and the padded message.
pub fn encrypt_aes_cbc(iv: &[u8; 16], key: &[u8; 32], plaintext: &[u8], out: &mut [u8]) -> (n: usize)
    requires
        IV_LEN + padded_len(plaintext@.len()) <= old(out)@.len(),
    ensures
        n == IV_LEN + padded_len(plaintext@.len()),
        final(out)@.len() == old(out)@.len(),
        final(out)@.take(n as int) == iv@ + aes256_cbc_encrypt(key@, iv@, plaintext@),
        final(out)@.skip(n as int) == old(out)@.skip(n as int),
        aes256_cbc_decrypt(key@, iv@, final(out)@.subrange(IV_LEN as int, n as int)) == Some(plaintext@),
{
    let out_len = out.len() - IV_LEN;
    let ct = aes256_cbc_encrypt_raw(key, iv, plaintext, out_len);
    let ghost old_out = out@;
    let mut i: usize = 0;
    while i < IV_LEN
        invariant
            i <= IV_LEN,
            out@.len() == old_out.len(),
            IV_LEN + ct@.len() <= old_out.len(),
            forall|j: int| 0 <= j < i ==> out@[j] == iv@[j],
            forall|j: int| i <= j < old_out.len() ==> out@[j] == old_out[j],
        decreases IV_LEN - i,
    {
        out[i] = iv[i];
        i = i + 1;
    }
    let mut k: usize = 0;
    while k < ct.len()
        invariant
            k <= ct@.len(),
            out@.len() == old_out.len(),
            IV_LEN + ct@.len() <= out.len(),
            forall|j: int| 0 <= j < IV_LEN ==> out@[j] == iv@[j],
            forall|j: int| 0 <= j < k ==> out@[IV_LEN + j] == ct@[j],
            forall|j: int| IV_LEN + k <= j < old_out.len() ==> out@[j] == old_out[j],
        decreases ct@.len() - k,
    {
        out[IV_LEN + k] = ct[k];
        k = k + 1;
    }
    let n = IV_LEN + ct.len();
    assert(out@.take(n as int) =~= iv@ + ct@);
    assert(out@.skip(n as int) =~= old_out.skip(n as int));
    assert(out@.subrange(IV_LEN as int, n as int) =~= ct@);
    n
}

/// Splits `data` into `IV || ciphertext`, decrypts the ciphertext under `key`
/// and writes the plaintext to the front of `out`. Returns its length, or
/// `None` where the unpadding fails (then `out` is unchanged). `data` must hold
/// an IV and `out` must be at least as long as the ciphertext.
pub fn decrypt_aes_cbc(key: &[u8; 32], data: &[u8], out: &mut [u8]) -> (n: Option<usize>)
    requires
        data@.len() >= IV_LEN,
        old(out)@.len() >= data@.len() - IV_LEN,
    ensures
        final(out)@.len() == old(out)@.len(),
        match aes256_cbc_decrypt(key@, data@.take(IV_LEN as int), data@.skip(IV_LEN as int)) {
            Some(p) => n == Some(p.len() as usize)
                && p.len() < data@.len() - IV_LEN
                && final(out)@.take(p.len() as int) == p
                && final(out)@.skip(p.len() as int) == old(out)@.skip(p.len() as int),
            None => n is None && final(out)@ == old(out)@,
        },
{
    let (iv, ciphertext) = data.split_at(IV_LEN);
    assert(iv@ == data@.take(IV_LEN as int));
    assert(ciphertext@ == data@.skip(IV_LEN as int));
    match aes256_cbc_decrypt_raw(key, iv, ciphertext) {
        None => None,
        Some(p) => {
            let ghost old_out = out@;
            let mut k: usize = 0;
            while k < p.len()
                invariant
                    k <= p@.len(),
                    p@.len() <= old_out.len(),
                    out@.len() == old_out.len(),
                    forall|j: int| 0 <= j < k ==> out@[j] == p@[j],
                    forall|j: int| k <= j < old_out.len() ==> out@[j] == old_out[j],
                decreases p@.len() - k,
            {
                out[k] = p[k];
                k = k + 1;
            }
            assert(out@.take(p@.len() as int) =~= p@);
            assert(out@.skip(p@.len() as int) =~= old_out.skip(p@.len() as int));
            Some(p.len())
        },
    }
}

} // verus!
