//! The session key and the AES-128 OCB3 authenticated encryption of packet
//! bodies, with a 12-byte nonce, a 16-byte tag, and no associated data.
use vstd::prelude::*;

use aes::Aes128;
use ocb3::aead::{AeadInOut, KeyInit};
use ocb3::consts::{U12, U16};
use ocb3::Ocb3;
use zeroize::Zeroize;

use crate::limits::DECODED_KEY_BYTES;

verus! {

/// Bytes of an OCB3 nonce.
pub const NONCE_BYTES: usize = 12;
/// Bytes of an OCB3 tag.
pub const TAG_BYTES: usize = 16;
/// Bodies of this many bytes or more are refused by the cipher.
pub const MAX_SEALED_BYTES: usize = 2048;

/// What AES-128 OCB3 (12-byte nonce, 16-byte tag, no associated data) makes
/// of `plaintext` under `key` and `nonce`: the ciphertext and the tag.
pub uninterp spec fn ocb3_sealed(key: Seq<u8>, nonce: Seq<u8>, plaintext: Seq<u8>) -> (
    Seq<u8>,
    Seq<u8>,
);

/// What AES-128 OCB3 opening of `ciphertext` with `tag` gives: the plaintext
/// when the tag authenticates it, else `None`.
pub uninterp spec fn ocb3_opened(key: Seq<u8>, nonce: Seq<u8>, ciphertext: Seq<u8>, tag: Seq<u8>) -> Option<
    Seq<u8>,
>;

/// Calls `ocb3::Ocb3::<Aes128, U12, U16, 7>::encrypt_inout_detached` on a
/// cipher made from `key`. The contract names the ciphertext and the tag,
/// states that the call succeeds exactly for a body below the cipher's
/// length limit (the only refusal in the source, made before the buffer is
/// touched), and states the defining promise of an authenticated cipher:
/// opening what was sealed gives the plaintext back.
#[verifier::external_body]
fn ocb3_seal_in_place(key: &[u8; 16], nonce: [u8; 12], buffer: &mut [u8]) -> (r: Option<[u8; 16]>)
    ensures
        r is Some <==> old(buffer)@.len() < MAX_SEALED_BYTES,
        r is None ==> final(buffer)@ == old(buffer)@,
        r is Some ==> final(buffer)@ == ocb3_sealed(key@, nonce@, old(buffer)@).0,
        final(buffer)@.len() == old(buffer)@.len(),
        r matches Some(t) ==> t@ == ocb3_sealed(key@, nonce@, old(buffer)@).1,
        r matches Some(t) ==> ocb3_opened(key@, nonce@, final(buffer)@, t@) == Some(old(buffer)@),
{
    let cipher = Ocb3::<Aes128, U12, U16, 7>::new(&(*key).into());
    let tag = cipher.encrypt_inout_detached(&nonce.into(), &[], buffer.into()).ok()?;
    Some(tag.into())
}

/// Calls `ocb3::Ocb3::<Aes128, U12, U16, 7>::decrypt_inout_detached` on a
/// cipher made from `key`, for a buffer below the cipher's length limit
/// (the source indexes past its offset table on a buffer of exactly the
/// limit). The contract states that it succeeds exactly when the named
/// opening authenticates, that the buffer then holds the plaintext, and that
/// its length never changes; what a refused buffer holds is left unsaid.
#[verifier::external_body]
fn ocb3_open_in_place(key: &[u8; 16], nonce: [u8; 12], buffer: &mut [u8], tag: [u8; 16]) -> (r:
    bool)
    requires
        old(buffer)@.len() < MAX_SEALED_BYTES,
    ensures
        r == ocb3_opened(key@, nonce@, old(buffer)@, tag@) is Some,
        r ==> final(buffer)@ == ocb3_opened(key@, nonce@, old(buffer)@, tag@)->0,
        final(buffer)@.len() == old(buffer)@.len(),
{
    let cipher = Ocb3::<Aes128, U12, U16, 7>::new(&(*key).into());
    cipher.decrypt_inout_detached(&nonce.into(), &[], buffer.into(), &tag.into()).is_ok()
}

/// Calls `zeroize::Zeroize::zeroize` on a byte slice: every byte becomes
/// zero, by writes the compiler does not remove.
#[verifier::external_body]
pub(crate) fn zeroize_bytes(buffer: &mut [u8])
    ensures
        final(buffer)@ == Seq::new(old(buffer)@.len(), |_i: int| 0u8),
{
    buffer.zeroize();
}

/// Calls `zeroize::Zeroize::zeroize` on a key-sized array: every byte
/// becomes zero, by writes the compiler does not remove.
#[verifier::external_body]
pub(crate) fn zeroize_key_bytes(bytes: &mut [u8; DECODED_KEY_BYTES])
    ensures
        final(bytes)@ == Seq::new(DECODED_KEY_BYTES as nat, |_i: int| 0u8),
{
    bytes.zeroize();
}

/// The AES-128 key of one session.
pub struct SessionKey {
    bytes: [u8; DECODED_KEY_BYTES],
}

impl SessionKey {
    /// The key's bytes.
    pub closed spec fn key(&self) -> Seq<u8> {
        self.bytes@
    }

    /// Makes a key from its bytes.
    pub fn new(bytes: [u8; DECODED_KEY_BYTES]) -> (r: SessionKey)
        ensures
            r.key() == bytes@,
    {
        SessionKey { bytes }
    }

    /// The key's bytes.
    pub fn as_bytes(&self) -> (r: &[u8; DECODED_KEY_BYTES])
        ensures
            r@ == self.key(),
    {
        &self.bytes
    }

    /// Overwrites the key with zeros.
    pub fn zeroize(&mut self)
        ensures
            final(self).key() == Seq::new(DECODED_KEY_BYTES as nat, |_i: int| 0u8),
    {
        zeroize_key_bytes(&mut self.bytes);
    }
}

/// The authenticated cipher of one session.
pub struct SessionCrypto {
    key: [u8; DECODED_KEY_BYTES],
}

impl SessionCrypto {
    /// The key this cipher uses.
    pub closed spec fn key(&self) -> Seq<u8> {
        self.key@
    }

    /// The cipher of `key`.
    pub fn new(key: &SessionKey) -> (r: SessionCrypto)
        ensures
            r.key() == key.key(),
    {
        SessionCrypto { key: *key.as_bytes() }
    }

    /// Encrypts `buffer` in place and returns the tag. A buffer of
    /// `MAX_SEALED_BYTES` or more is refused and left unchanged.
    pub fn seal(&self, nonce: [u8; NONCE_BYTES], buffer: &mut [u8]) -> (r: Result<
        [u8; TAG_BYTES],
        (),
    >)
        ensures
            r is Ok <==> old(buffer)@.len() < MAX_SEALED_BYTES,
            r is Err ==> final(buffer)@ == old(buffer)@,
            r matches Ok(t) ==> t@ == ocb3_sealed(self.key(), nonce@, old(buffer)@).1,
            r is Ok ==> final(buffer)@ == ocb3_sealed(self.key(), nonce@, old(buffer)@).0,
            final(buffer)@.len() == old(buffer)@.len(),
            r is Ok ==> ocb3_opened(self.key(), nonce@, final(buffer)@, r->Ok_0@) == Some(
                old(buffer)@,
            ),
    {
        match ocb3_seal_in_place(&self.key, nonce, buffer) {
            Some(tag) => Ok(tag),
            None => Err(()),
        }
    }

    /// Overwrites the cipher's key with zeros.
    pub fn zeroize(&mut self)
        ensures
            final(self).key() == Seq::new(DECODED_KEY_BYTES as nat, |_i: int| 0u8),
    {
        zeroize_key_bytes(&mut self.key);
    }

    /// Authenticates and decrypts `buffer` in place. A buffer of
    /// `MAX_SEALED_BYTES` or more is refused and left unchanged.
    pub fn open(&self, nonce: [u8; NONCE_BYTES], buffer: &mut [u8], tag: [u8; TAG_BYTES]) -> (r:
        Result<(), ()>)
        ensures
            r is Ok <==> old(buffer)@.len() < MAX_SEALED_BYTES && ocb3_opened(
                self.key(),
                nonce@,
                old(buffer)@,
                tag@,
            ) is Some,
            old(buffer)@.len() >= MAX_SEALED_BYTES ==> final(buffer)@ == old(buffer)@,
            r is Ok ==> final(buffer)@ == ocb3_opened(self.key(), nonce@, old(buffer)@, tag@)->0,
            final(buffer)@.len() == old(buffer)@.len(),
    {
        if buffer.len() >= MAX_SEALED_BYTES {
            return Err(());
        }
        if ocb3_open_in_place(&self.key, nonce, buffer, tag) {
            Ok(())
        } else {
            Err(())
        }
    }
}

} // verus!
