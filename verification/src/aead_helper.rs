//! The cipher capabilities that the protocol is built on: authenticated
//! encryption in place under AES-GCM or ChaCha20-Poly1305, the AES block
//! cipher, and random bytes for salts and IVs.
//!
//! The primitives themselves come from the `aes-gcm`, `chacha20poly1305`,
//! `aes` and `rand` crates. A cipher value here is its key; the primitive is
//! set up from the key for each call.

use vstd::prelude::*;

verus! {

/// Length of the nonce that both AEAD algorithms take.
pub const NONCE_LEN: usize = 12;

/// Length of the authentication tag that both AEAD algorithms append.
pub const TAG_LEN: usize = 16;

/// How often [`random_iv_or_salt`] draws before it gives up on getting a
/// buffer that is not all zero.
pub const MAX_DRAWS: usize = 64;

/// What AES-GCM (96-bit nonce, 128-bit tag) makes of a message: the
/// ciphertext followed by the tag. The key length selects AES-128 or AES-256.
pub uninterp spec fn aes_gcm_sealed(key: Seq<u8>, nonce: Seq<u8>, aad: Seq<u8>, msg: Seq<u8>) -> Seq<
    u8,
>;

/// What AES-GCM recovers from a ciphertext followed by its tag: the message,
/// or nothing where the tag does not authenticate it.
pub uninterp spec fn aes_gcm_opened(
    key: Seq<u8>,
    nonce: Seq<u8>,
    aad: Seq<u8>,
    sealed: Seq<u8>,
) -> Option<Seq<u8>>;

/// What ChaCha20-Poly1305 makes of a message: the ciphertext followed by the
/// tag.
pub uninterp spec fn chacha20_poly1305_sealed(
    key: Seq<u8>,
    nonce: Seq<u8>,
    aad: Seq<u8>,
    msg: Seq<u8>,
) -> Seq<u8>;

/// What ChaCha20-Poly1305 recovers from a ciphertext followed by its tag.
pub uninterp spec fn chacha20_poly1305_opened(
    key: Seq<u8>,
    nonce: Seq<u8>,
    aad: Seq<u8>,
    sealed: Seq<u8>,
) -> Option<Seq<u8>>;

/// The AES-128 encryption of one 16-byte block.
pub uninterp spec fn aes128_block_encrypted(key: Seq<u8>, block: Seq<u8>) -> Seq<u8>;

/// The AES-128 decryption of one 16-byte block.
pub uninterp spec fn aes128_block_decrypted(key: Seq<u8>, block: Seq<u8>) -> Seq<u8>;

/// The longest message that AES-GCM encrypts, and the longest associated
/// data that it takes: 2^36 bytes.
pub open spec fn aes_gcm_max_len() -> nat {
    0x10_0000_0000
}

/// The longest text that ChaCha20-Poly1305 encrypts or decrypts: 2^32 - 2
/// blocks of 64 bytes, which is what is left of the keystream once its
/// first block has given the key of the tag.
pub open spec fn chacha20_poly1305_max_len() -> nat {
    0x3f_ffff_ff80
}

/// What decrypting in place leaves of a buffer that held a ciphertext and
/// its tag, given what the cipher recovers from them: where the tag
/// authenticates, the message in the place of the ciphertext; where it does
/// not, the buffer as it was. The tag stays in either case.
pub open spec fn opened_in_place(
    opened: Option<Seq<u8>>,
    before: Seq<u8>,
    ok: bool,
    after: Seq<u8>,
) -> bool {
    &&& after.len() == before.len()
    &&& ok == opened.is_some()
    &&& ok ==> opened == Some(after.take(before.len() - TAG_LEN))
    &&& !ok ==> after == before
    &&& after.skip(before.len() - TAG_LEN) == before.skip(before.len() - TAG_LEN)
}

/// Decrypting in place has one outcome: the same cipher, nonce, associated
/// data and buffer give the same answer and leave the same buffer.
pub proof fn lemma_opened_in_place_is_fixed(
    opened: Option<Seq<u8>>,
    before: Seq<u8>,
    ok1: bool,
    after1: Seq<u8>,
    ok2: bool,
    after2: Seq<u8>,
)
    requires
        before.len() >= TAG_LEN,
        opened_in_place(opened, before, ok1, after1),
        opened_in_place(opened, before, ok2, after2),
    ensures
        ok1 == ok2,
        after1 == after2,
{
    let at = before.len() - TAG_LEN;
    assert(after1 =~= after1.take(at) + after1.skip(at));
    assert(after2 =~= after2.take(at) + after2.skip(at));
}

/// A failed decryption changes nothing: the ciphertext is not replaced,
/// in part or in whole, by anything decrypted.
pub proof fn lemma_failed_open_leaves_the_buffer(
    opened: Option<Seq<u8>>,
    before: Seq<u8>,
    ok: bool,
    after: Seq<u8>,
)
    requires
        opened_in_place(opened, before, ok, after),
        opened is None,
    ensures
        !ok,
        after == before,
{
}

/// A buffer is its text followed by its tag.
proof fn lemma_split_at_tag(whole: Seq<u8>, at: int)
    requires
        0 <= at <= whole.len(),
    ensures
        whole.take(at) == whole.subrange(0, at),
        whole.skip(at) == whole.subrange(at, whole.len() as int),
        whole == whole.subrange(0, at) + whole.subrange(at, whole.len() as int),
{
    assert(whole.take(at) =~= whole.subrange(0, at));
    assert(whole.skip(at) =~= whole.subrange(at, whole.len() as int));
    assert(whole =~= whole.subrange(0, at) + whole.subrange(at, whole.len() as int));
}

/// A text followed by a tag is cut back into the two at the text's length.
proof fn lemma_joined_at_tag(text: Seq<u8>, tag: Seq<u8>)
    ensures
        (text + tag).take(text.len() as int) == text,
        (text + tag).skip(text.len() as int) == tag,
{
    assert((text + tag).take(text.len() as int) =~= text);
    assert((text + tag).skip(text.len() as int) =~= tag);
}

/// `AeadInPlace::encrypt_in_place_detached` of `aes_gcm::Aes128Gcm`, on a
/// cipher made from `key` by `KeyInit::new`. It replaces the message by its
/// ciphertext and returns the tag; a receiver with the same key, nonce and
/// associated data gets the message back. It fails on a nonce of another
/// length and on more than 2^36 bytes.
#[verifier::external_body]
fn aes128_gcm_encrypt(key: &[u8; 16], nonce: &[u8], aad: &[u8], msg: &mut [u8]) -> (tag: [u8; 16])
    requires
        nonce@.len() == NONCE_LEN,
        old(msg)@.len() <= aes_gcm_max_len(),
        aad@.len() <= aes_gcm_max_len(),
    ensures
        final(msg)@.len() == old(msg)@.len(),
        final(msg)@ + tag@ == aes_gcm_sealed(key@, nonce@, aad@, old(msg)@),
        aes_gcm_opened(key@, nonce@, aad@, final(msg)@ + tag@) == Some(old(msg)@),
{
    let cipher = <aes_gcm::Aes128Gcm as aes_gcm::KeyInit>::new(key.into());
    aes_gcm::AeadInPlace::encrypt_in_place_detached(&cipher, nonce.into(), aad, msg)
        .expect("encryption failure!")
        .into()
}

/// `AeadInPlace::decrypt_in_place_detached` of `aes_gcm::Aes128Gcm`. Where
/// the tag authenticates the ciphertext it replaces the ciphertext by the
/// message; where it does not, it leaves the ciphertext as it was. It panics
/// on a nonce or a tag of another length.
#[verifier::external_body]
fn aes128_gcm_decrypt(key: &[u8; 16], nonce: &[u8], aad: &[u8], text: &mut [u8], tag: &[u8]) -> (ok:
    bool)
    requires
        nonce@.len() == NONCE_LEN,
        tag@.len() == TAG_LEN,
    ensures
        final(text)@.len() == old(text)@.len(),
        ok == aes_gcm_opened(key@, nonce@, aad@, old(text)@ + tag@).is_some(),
        ok ==> aes_gcm_opened(key@, nonce@, aad@, old(text)@ + tag@) == Some(final(text)@),
        !ok ==> final(text)@ == old(text)@,
{
    let cipher = <aes_gcm::Aes128Gcm as aes_gcm::KeyInit>::new(key.into());
    let tag = aes_gcm::Tag::from_slice(tag);
    aes_gcm::AeadInPlace::decrypt_in_place_detached(&cipher, nonce.into(), aad, text, tag).is_ok()
}

/// `AeadInPlace::encrypt_in_place_detached` of `aes_gcm::Aes256Gcm`, as for
/// AES-128 with a 32-byte key.
#[verifier::external_body]
fn aes256_gcm_encrypt(key: &[u8; 32], nonce: &[u8], aad: &[u8], msg: &mut [u8]) -> (tag: [u8; 16])
    requires
        nonce@.len() == NONCE_LEN,
        old(msg)@.len() <= aes_gcm_max_len(),
        aad@.len() <= aes_gcm_max_len(),
    ensures
        final(msg)@.len() == old(msg)@.len(),
        final(msg)@ + tag@ == aes_gcm_sealed(key@, nonce@, aad@, old(msg)@),
        aes_gcm_opened(key@, nonce@, aad@, final(msg)@ + tag@) == Some(old(msg)@),
{
    let cipher = <aes_gcm::Aes256Gcm as aes_gcm::KeyInit>::new(key.into());
    aes_gcm::AeadInPlace::encrypt_in_place_detached(&cipher, nonce.into(), aad, msg)
        .expect("encryption failure!")
        .into()
}

/// `AeadInPlace::decrypt_in_place_detached` of `aes_gcm::Aes256Gcm`, as for
/// AES-128 with a 32-byte key.
#[verifier::external_body]
fn aes256_gcm_decrypt(key: &[u8; 32], nonce: &[u8], aad: &[u8], text: &mut [u8], tag: &[u8]) -> (ok:
    bool)
    requires
        nonce@.len() == NONCE_LEN,
        tag@.len() == TAG_LEN,
    ensures
        final(text)@.len() == old(text)@.len(),
        ok == aes_gcm_opened(key@, nonce@, aad@, old(text)@ + tag@).is_some(),
        ok ==> aes_gcm_opened(key@, nonce@, aad@, old(text)@ + tag@) == Some(final(text)@),
        !ok ==> final(text)@ == old(text)@,
{
    let cipher = <aes_gcm::Aes256Gcm as aes_gcm::KeyInit>::new(key.into());
    let tag = aes_gcm::Tag::from_slice(tag);
    aes_gcm::AeadInPlace::decrypt_in_place_detached(&cipher, nonce.into(), aad, text, tag).is_ok()
}

/// `AeadInPlace::encrypt_in_place_detached` of
/// `chacha20poly1305::ChaCha20Poly1305`, on a cipher made from `key` by
/// `KeyInit::new`. It replaces the message by its ciphertext and returns the
/// tag; a receiver with the same key, nonce and associated data gets the
/// message back. It fails on a nonce of another length and on a message
/// longer than the keystream.
#[verifier::external_body]
fn chacha20_poly1305_encrypt(key: &[u8; 32], nonce: &[u8], aad: &[u8], msg: &mut [u8]) -> (tag: [
    u8;
    16
])
    requires
        nonce@.len() == NONCE_LEN,
        old(msg)@.len() <= chacha20_poly1305_max_len(),
    ensures
        final(msg)@.len() == old(msg)@.len(),
        final(msg)@ + tag@ == chacha20_poly1305_sealed(key@, nonce@, aad@, old(msg)@),
        chacha20_poly1305_opened(key@, nonce@, aad@, final(msg)@ + tag@) == Some(old(msg)@),
{
    let cipher = <chacha20poly1305::ChaCha20Poly1305 as chacha20poly1305::KeyInit>::new(key.into());
    chacha20poly1305::AeadInPlace::encrypt_in_place_detached(&cipher, nonce.into(), aad, msg)
        .expect("encryption failure!")
        .into()
}

/// `AeadInPlace::decrypt_in_place_detached` of
/// `chacha20poly1305::ChaCha20Poly1305`. Where the tag authenticates the
/// ciphertext it replaces the ciphertext by the message; where it does not,
/// it leaves the ciphertext as it was. It panics on a nonce or a tag of
/// another length, and on a ciphertext with a matching tag that is longer
/// than the keystream.
#[verifier::external_body]
fn chacha20_poly1305_decrypt(
    key: &[u8; 32],
    nonce: &[u8],
    aad: &[u8],
    text: &mut [u8],
    tag: &[u8],
) -> (ok: bool)
    requires
        nonce@.len() == NONCE_LEN,
        tag@.len() == TAG_LEN,
        old(text)@.len() <= chacha20_poly1305_max_len(),
    ensures
        final(text)@.len() == old(text)@.len(),
        ok == chacha20_poly1305_opened(key@, nonce@, aad@, old(text)@ + tag@).is_some(),
        ok ==> chacha20_poly1305_opened(key@, nonce@, aad@, old(text)@ + tag@) == Some(
            final(text)@,
        ),
        !ok ==> final(text)@ == old(text)@,
{
    let cipher = <chacha20poly1305::ChaCha20Poly1305 as chacha20poly1305::KeyInit>::new(key.into());
    let tag = chacha20poly1305::Tag::from_slice(tag);
    chacha20poly1305::AeadInPlace::decrypt_in_place_detached(&cipher, nonce.into(), aad, text, tag)
        .is_ok()
}

/// `BlockEncrypt::encrypt_block` of `aes::Aes128`, on a cipher made from
/// `key` by `KeyInit::new`. It panics on a block that is not 16 bytes long.
#[verifier::external_body]
fn aes128_encrypt_block(key: &[u8; 16], block: &mut [u8])
    requires
        old(block)@.len() == 16,
    ensures
        final(block)@ == aes128_block_encrypted(key@, old(block)@),
        final(block)@.len() == 16,
{
    let cipher = <aes::Aes128 as aes::cipher::KeyInit>::new(key.into());
    aes::cipher::BlockEncrypt::encrypt_block(
        &cipher,
        generic_array::GenericArray::from_mut_slice(block),
    )
}

/// `BlockDecrypt::decrypt_block` of `aes::Aes128`, on a cipher made from
/// `key` by `KeyInit::new`. It panics on a block that is not 16 bytes long.
#[verifier::external_body]
fn aes128_decrypt_block(key: &[u8; 16], block: &mut [u8])
    requires
        old(block)@.len() == 16,
    ensures
        final(block)@ == aes128_block_decrypted(key@, old(block)@),
        final(block)@.len() == 16,
{
    let cipher = <aes::Aes128 as aes::cipher::KeyInit>::new(key.into());
    aes::cipher::BlockDecrypt::decrypt_block(
        &cipher,
        generic_array::GenericArray::from_mut_slice(block),
    )
}

/// `Rng::fill` on `rand::thread_rng()`: overwrites the buffer with random
/// bytes. Nothing is known of them.
#[verifier::external_body]
fn fill_random(dest: &mut [u8])
    ensures
        final(dest)@.len() == old(dest)@.len(),
{
    rand::Rng::fill(&mut rand::thread_rng(), dest)
}

/// Copies a slice into an array of the same length.
pub(crate) fn to_array<const N: usize>(s: &[u8]) -> (a: [u8; N])
    requires
        s@.len() == N,
    ensures
        a@ == s@,
{
    let mut a: [u8; N] = [0u8; N];
    let mut i: usize = 0;
    while i < N
        invariant
            i <= N,
            s@.len() == N,
            forall|j: int| 0 <= j < i ==> a@[j] == s@[j],
        decreases N - i,
    {
        a[i] = s[i];
        i += 1;
    }
    proof {
        assert(a@ =~= s@);
    }
    a
}

/// Overwrites `dst` with `src`.
pub(crate) fn copy_into(dst: &mut [u8], src: &[u8])
    requires
        old(dst)@.len() == src@.len(),
    ensures
        final(dst)@ == src@,
{
    let mut i: usize = 0;
    while i < src.len()
        invariant
            i <= src@.len(),
            dst@.len() == src@.len(),
            forall|j: int| 0 <= j < i ==> dst@[j] == src@[j],
        decreases src@.len() - i,
    {
        dst[i] = src[i];
        i += 1;
    }
    proof {
        assert(dst@ =~= src@);
    }
}

/// An AEAD cipher that works on one buffer: the message with room for the
/// tag behind it going in, the ciphertext followed by the tag coming out, and
/// back.
pub trait AeadCipherHelper: Sized {
    /// The key length that the algorithm takes.
    spec fn key_len() -> nat;

    /// The longest message that the algorithm encrypts.
    spec fn max_message_len() -> nat;

    /// The longest associated data that the algorithm takes.
    spec fn max_aad_len() -> nat;

    /// The longest ciphertext that the algorithm takes for decryption
    /// without failing otherwise than by its answer.
    spec fn max_ciphertext_len() -> nat;

    /// The key this cipher was made from.
    spec fn key(&self) -> Seq<u8>;

    /// The ciphertext and tag that this cipher makes of `msg`.
    spec fn sealed(&self, nonce: Seq<u8>, aad: Seq<u8>, msg: Seq<u8>) -> Seq<u8>;

    /// The message that this cipher recovers from a ciphertext and tag, if
    /// the tag authenticates it.
    spec fn opened(&self, nonce: Seq<u8>, aad: Seq<u8>, sealed: Seq<u8>) -> Option<Seq<u8>>;

    /// Makes the cipher for `key`.
    fn new_with_slice(key: &[u8]) -> (cipher: Self)
        requires
            key@.len() == Self::key_len(),
        ensures
            cipher.key() == key@,
    ;

    /// Encrypts the message that `buffer` holds before its last 16 bytes,
    /// and writes the tag into those.
    fn encrypt_inplace_with_slice(&self, nonce: &[u8], aad: &[u8], buffer: &mut [u8])
        requires
            nonce@.len() == NONCE_LEN,
            old(buffer)@.len() >= TAG_LEN,
            old(buffer)@.len() - TAG_LEN <= Self::max_message_len(),
            aad@.len() <= Self::max_aad_len(),
        ensures
            final(buffer)@.len() == old(buffer)@.len(),
            final(buffer)@ == self.sealed(
                nonce@,
                aad@,
                old(buffer)@.take(old(buffer)@.len() - TAG_LEN),
            ),
            self.opened(nonce@, aad@, final(buffer)@) == Some(
                old(buffer)@.take(old(buffer)@.len() - TAG_LEN),
            ),
    ;

    /// Checks the tag in the last 16 bytes of `buffer` and, where it
    /// authenticates the ciphertext before it, replaces the ciphertext by
    /// the message. Where it does not, the buffer stays as it was. The tag
    /// stays in either case.
    fn decrypt_in_place_with_slice(&self, nonce: &[u8], aad: &[u8], buffer: &mut [u8]) -> (ok: bool)
        requires
            nonce@.len() == NONCE_LEN,
            old(buffer)@.len() >= TAG_LEN,
            old(buffer)@.len() - TAG_LEN <= Self::max_ciphertext_len(),
        ensures
            opened_in_place(
                self.opened(nonce@, aad@, old(buffer)@),
                old(buffer)@,
                ok,
                final(buffer)@,
            ),
    ;
}

/// AES-GCM with a 128-bit key.
pub struct Aes128Gcm {
    key: [u8; 16],
}

/// AES-GCM with a 256-bit key.
pub struct Aes256Gcm {
    key: [u8; 32],
}

/// ChaCha20-Poly1305, with its 256-bit key.
pub struct ChaCha20Poly1305 {
    key: [u8; 32],
}

impl AeadCipherHelper for Aes128Gcm {
    open spec fn key_len() -> nat {
        16
    }

    open spec fn max_message_len() -> nat {
        aes_gcm_max_len()
    }

    open spec fn max_aad_len() -> nat {
        aes_gcm_max_len()
    }

    open spec fn max_ciphertext_len() -> nat {
        usize::MAX as nat
    }

    closed spec fn key(&self) -> Seq<u8> {
        self.key@
    }

    open spec fn sealed(&self, nonce: Seq<u8>, aad: Seq<u8>, msg: Seq<u8>) -> Seq<u8> {
        aes_gcm_sealed(self.key(), nonce, aad, msg)
    }

    open spec fn opened(&self, nonce: Seq<u8>, aad: Seq<u8>, sealed: Seq<u8>) -> Option<Seq<u8>> {
        aes_gcm_opened(self.key(), nonce, aad, sealed)
    }

    fn new_with_slice(key: &[u8]) -> (cipher: Self) {
        Aes128Gcm { key: to_array(key) }
    }

    fn encrypt_inplace_with_slice(&self, nonce: &[u8], aad: &[u8], buffer: &mut [u8]) {
        let tag_pos = buffer.len() - TAG_LEN;
        proof {
            lemma_split_at_tag(buffer@, tag_pos as int);
        }
        let (msg, tag) = buffer.split_at_mut(tag_pos);
        let x = aes128_gcm_encrypt(&self.key, nonce, aad, msg);
        copy_into(tag, &x);
    }

    fn decrypt_in_place_with_slice(&self, nonce: &[u8], aad: &[u8], buffer: &mut [u8]) -> (ok:
        bool) {
        let tag_pos = buffer.len() - TAG_LEN;
        proof {
            lemma_split_at_tag(buffer@, tag_pos as int);
        }
        let (text, tag) = buffer.split_at_mut(tag_pos);
        let ok = aes128_gcm_decrypt(&self.key, nonce, aad, text, tag);
        proof {
            lemma_joined_at_tag(text@, tag@);
        }
        ok
    }
}

impl AeadCipherHelper for Aes256Gcm {
    open spec fn key_len() -> nat {
        32
    }

    open spec fn max_message_len() -> nat {
        aes_gcm_max_len()
    }

    open spec fn max_aad_len() -> nat {
        aes_gcm_max_len()
    }

    open spec fn max_ciphertext_len() -> nat {
        usize::MAX as nat
    }

    closed spec fn key(&self) -> Seq<u8> {
        self.key@
    }

    open spec fn sealed(&self, nonce: Seq<u8>, aad: Seq<u8>, msg: Seq<u8>) -> Seq<u8> {
        aes_gcm_sealed(self.key(), nonce, aad, msg)
    }

    open spec fn opened(&self, nonce: Seq<u8>, aad: Seq<u8>, sealed: Seq<u8>) -> Option<Seq<u8>> {
        aes_gcm_opened(self.key(), nonce, aad, sealed)
    }

    fn new_with_slice(key: &[u8]) -> (cipher: Self) {
        Aes256Gcm { key: to_array(key) }
    }

    fn encrypt_inplace_with_slice(&self, nonce: &[u8], aad: &[u8], buffer: &mut [u8]) {
        let tag_pos = buffer.len() - TAG_LEN;
        proof {
            lemma_split_at_tag(buffer@, tag_pos as int);
        }
        let (msg, tag) = buffer.split_at_mut(tag_pos);
        let x = aes256_gcm_encrypt(&self.key, nonce, aad, msg);
        copy_into(tag, &x);
    }

    fn decrypt_in_place_with_slice(&self, nonce: &[u8], aad: &[u8], buffer: &mut [u8]) -> (ok:
        bool) {
        let tag_pos = buffer.len() - TAG_LEN;
        proof {
            lemma_split_at_tag(buffer@, tag_pos as int);
        }
        let (text, tag) = buffer.split_at_mut(tag_pos);
        let ok = aes256_gcm_decrypt(&self.key, nonce, aad, text, tag);
        proof {
            lemma_joined_at_tag(text@, tag@);
        }
        ok
    }
}

impl AeadCipherHelper for ChaCha20Poly1305 {
    open spec fn key_len() -> nat {
        32
    }

    open spec fn max_message_len() -> nat {
        chacha20_poly1305_max_len()
    }

    open spec fn max_aad_len() -> nat {
        0xffff_ffff_ffff_ffff
    }

    open spec fn max_ciphertext_len() -> nat {
        chacha20_poly1305_max_len()
    }

    closed spec fn key(&self) -> Seq<u8> {
        self.key@
    }

    open spec fn sealed(&self, nonce: Seq<u8>, aad: Seq<u8>, msg: Seq<u8>) -> Seq<u8> {
        chacha20_poly1305_sealed(self.key(), nonce, aad, msg)
    }

    open spec fn opened(&self, nonce: Seq<u8>, aad: Seq<u8>, sealed: Seq<u8>) -> Option<Seq<u8>> {
        chacha20_poly1305_opened(self.key(), nonce, aad, sealed)
    }

    fn new_with_slice(key: &[u8]) -> (cipher: Self) {
        ChaCha20Poly1305 { key: to_array(key) }
    }

    fn encrypt_inplace_with_slice(&self, nonce: &[u8], aad: &[u8], buffer: &mut [u8]) {
        let tag_pos = buffer.len() - TAG_LEN;
        proof {
            lemma_split_at_tag(buffer@, tag_pos as int);
        }
        let (msg, tag) = buffer.split_at_mut(tag_pos);
        let x = chacha20_poly1305_encrypt(&self.key, nonce, aad, msg);
        copy_into(tag, &x);
    }

    fn decrypt_in_place_with_slice(&self, nonce: &[u8], aad: &[u8], buffer: &mut [u8]) -> (ok:
        bool) {
        let tag_pos = buffer.len() - TAG_LEN;
        proof {
            lemma_split_at_tag(buffer@, tag_pos as int);
        }
        let (text, tag) = buffer.split_at_mut(tag_pos);
        let ok = chacha20_poly1305_decrypt(&self.key, nonce, aad, text, tag);
        proof {
            lemma_joined_at_tag(text@, tag@);
        }
        ok
    }
}

/// A block cipher that works on one 16-byte block in place.
pub trait BlockCipherHelper: Sized {
    /// The key length that the cipher takes.
    spec fn key_len() -> nat;

    /// The key this cipher was made from.
    spec fn key(&self) -> Seq<u8>;

    /// The encryption of `block` under this cipher.
    spec fn encrypted(&self, block: Seq<u8>) -> Seq<u8>;

    /// The decryption of `block` under this cipher.
    spec fn decrypted(&self, block: Seq<u8>) -> Seq<u8>;

    /// Makes the cipher for `key`.
    fn new_with_slice(key: &[u8]) -> (cipher: Self)
        requires
            key@.len() == Self::key_len(),
        ensures
            cipher.key() == key@,
    ;

    /// Encrypts the block in place.
    fn encrypt_with_slice(&self, block: &mut [u8])
        requires
            old(block)@.len() == 16,
        ensures
            final(block)@ == self.encrypted(old(block)@),
            final(block)@.len() == 16,
    ;

    /// Decrypts the block in place.
    fn decrypt_with_slice(&self, block: &mut [u8])
        requires
            old(block)@.len() == 16,
        ensures
            final(block)@ == self.decrypted(old(block)@),
            final(block)@.len() == 16,
    ;
}

/// The AES block cipher with a 128-bit key.
pub struct Aes128 {
    key: [u8; 16],
}

impl BlockCipherHelper for Aes128 {
    open spec fn key_len() -> nat {
        16
    }

    closed spec fn key(&self) -> Seq<u8> {
        self.key@
    }

    open spec fn encrypted(&self, block: Seq<u8>) -> Seq<u8> {
        aes128_block_encrypted(self.key(), block)
    }

    open spec fn decrypted(&self, block: Seq<u8>) -> Seq<u8> {
        aes128_block_decrypted(self.key(), block)
    }

    fn new_with_slice(key: &[u8]) -> (cipher: Self) {
        Aes128 { key: to_array(key) }
    }

    fn encrypt_with_slice(&self, block: &mut [u8]) {
        aes128_encrypt_block(&self.key, block)
    }

    fn decrypt_with_slice(&self, block: &mut [u8]) {
        aes128_decrypt_block(&self.key, block)
    }
}

/// Whether every byte of `s` is zero. It holds of the empty sequence.
pub open spec fn is_all_zero(s: Seq<u8>) -> bool {
    forall|i: int| 0 <= i < s.len() ==> s[i] == 0
}

/// Tests whether every byte of `buf` is zero.
pub fn all_zero(buf: &[u8]) -> (z: bool)
    ensures
        z == is_all_zero(buf@),
{
    let mut i: usize = 0;
    while i < buf.len()
        invariant
            i <= buf@.len(),
            forall|j: int| 0 <= j < i ==> buf@[j] == 0,
        decreases buf@.len() - i,
    {
        if buf[i] != 0 {
            return false;
        }
        i += 1;
    }
    true
}

/// Fills `iv_or_salt` with random bytes, drawing again while all of them
/// are zero, at most [`MAX_DRAWS`] times. Returns whether the buffer now
/// holds a byte that is not zero. An empty buffer is left alone.
pub fn random_iv_or_salt(iv_or_salt: &mut [u8]) -> (nonzero: bool)
    ensures
        final(iv_or_salt)@.len() == old(iv_or_salt)@.len(),
        nonzero == !is_all_zero(final(iv_or_salt)@),
{
    if iv_or_salt.len() == 0 {
        return false;
    }
    let mut draws: usize = 0;
    while draws < MAX_DRAWS
        invariant
            draws <= MAX_DRAWS,
            iv_or_salt@.len() == old(iv_or_salt)@.len(),
        decreases MAX_DRAWS - draws,
    {
        fill_random(iv_or_salt);
        if !all_zero(iv_or_salt) {
            return true;
        }
        draws += 1;
    }
    !all_zero(iv_or_salt)
}

} // verus!
