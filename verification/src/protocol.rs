//! The handshake: the keys of one connection and the request header that
//! announces them to the server.

use crate::aead_helper::{all_zero, is_all_zero, random_iv_or_salt};
use crate::buffer::{bytes_of, put_u8};
use crate::checksum::{be32, be32_bytes, fnv1a32, fnv1a32_hash};
use bytes::{BufMut, BytesMut};
use md5::Digest;
use rand::rngs::StdRng;
use vstd::prelude::*;
use vstd::slice::{slice_subrange, slice_to_vec};

verus! {

/// The request asks for a TCP stream.
pub const REQUEST_COMMAND_TCP: u8 = 0x01;

/// The request asks for UDP.
pub const REQUEST_COMMAND_UDP: u8 = 0x02;

/// The body is protected by AES-128-GCM.
pub const SECURITY_TYPE_AES128_GCM: u8 = 0x03;

/// The body is protected by ChaCha20-Poly1305.
pub const SECURITY_TYPE_CHACHA20_POLY1305: u8 = 0x04;

/// The body is sent in chunks.
pub const REQUEST_OPTION_CHUNK_STREAM: u8 = 0x01;

/// The length of each chunk is masked.
pub const REQUEST_OPTION_CHUNK_MASKING: u8 = 0x04;

/// Chunks carry padding.
pub const REQUEST_OPTION_GLOBAL_PADDING: u8 = 0x08;

/// The number of header bytes before the address.
pub const HEADER_FIXED_LEN: usize = 38;

/// `rand::rngs::StdRng`. Nothing is known of a generator's state.
#[verifier::external_type_specification]
#[verifier::external_body]
pub struct ExStdRng(rand::rngs::StdRng);

/// The SHA-256 digest of `data`, 32 bytes.
pub uninterp spec fn sha256_digest(data: Seq<u8>) -> Seq<u8>;

/// The MD5 digest of `data`, 16 bytes.
pub uninterp spec fn md5_digest(data: Seq<u8>) -> Seq<u8>;

/// SHA-256 of `b`, by `sha2::Sha256` through `Digest::new`, `update` and
/// `finalize`.
#[verifier::external_body]
pub fn sha256(b: &[u8]) -> (digest: [u8; 32])
    ensures
        digest@ == sha256_digest(b@),
{
    let mut hasher = sha2::Sha256::new();
    hasher.update(b);
    hasher.finalize().into()
}

/// MD5 of `b`, by `md5::Md5` through `Digest::new`, `update` and
/// `finalize`.
#[verifier::external_body]
fn md5(b: &[u8]) -> (digest: [u8; 16])
    ensures
        digest@ == md5_digest(b@),
{
    let mut hasher = md5::Md5::new();
    hasher.update(b);
    hasher.finalize().into()
}

/// `SeedableRng::from_entropy` of `rand::rngs::StdRng`: a generator seeded
/// by the system.
#[verifier::external_body]
fn entropy_rng() -> StdRng {
    <StdRng as rand::SeedableRng>::from_entropy()
}

/// `Rng::gen_range` over `0..high`: some value below `high`. It panics on an
/// empty range.
#[verifier::external_body]
fn gen_below(rng: &mut StdRng, high: u8) -> (n: u8)
    requires
        high > 0,
    ensures
        n < high,
{
    rand::Rng::gen_range(rng, 0..high)
}

/// `Rng::gen` for a `u8`: some byte.
#[verifier::external_body]
fn gen_byte(rng: &mut StdRng) -> u8 {
    rand::Rng::gen(rng)
}

/// The keys of one connection.
pub struct ClientSession {
    pub request_body_key: Vec<u8>,
    pub request_body_iv: Vec<u8>,
    pub response_body_key: Vec<u8>,
    pub response_body_iv: Vec<u8>,
    pub response_header: u8,
}

impl ClientSession {
    /// Each key and IV is 16 bytes long.
    pub open spec fn well_formed(&self) -> bool {
        &&& self.request_body_key@.len() == 16
        &&& self.request_body_iv@.len() == 16
        &&& self.response_body_key@.len() == 16
        &&& self.response_body_iv@.len() == 16
    }

    /// The session is the one that a 64-byte salt gives: the request IV and
    /// key are its first and second 16 bytes, the response key and IV are
    /// the first halves of the SHA-256 digests of the request key and of the
    /// request IV, and the response header is byte 32.
    pub open spec fn derived_from(&self, salt: Seq<u8>) -> bool {
        &&& self.request_body_iv@ == salt.subrange(0, 16)
        &&& self.request_body_key@ == salt.subrange(16, 32)
        &&& self.response_body_key@ == sha256_digest(salt.subrange(16, 32)).take(16)
        &&& self.response_body_iv@ == sha256_digest(salt.subrange(0, 16)).take(16)
        &&& self.response_header == salt[32]
    }

    /// Derives the session from a salt.
    pub fn from_salt(salt: &[u8; 64]) -> (sess: ClientSession)
        ensures
            sess.derived_from(salt@),
            sess.well_formed(),
    {
        let respv = salt[32];
        let resp_body_key = sha256(slice_subrange(salt.as_slice(), 16, 32));
        let resp_body_iv = sha256(slice_subrange(salt.as_slice(), 0, 16));
        let mut mixed: [u8; 64] = *salt;
        let mut i: usize = 0;
        while i < 16
            invariant
                i <= 16,
                forall|j: int| 0 <= j < 32 ==> mixed@[j] == salt@[j],
                forall|j: int| 0 <= j < i ==> mixed@[32 + j] == resp_body_key@[j],
                forall|j: int| 0 <= j < i ==> mixed@[48 + j] == resp_body_iv@[j],
            decreases 16 - i,
        {
            mixed[32 + i] = resp_body_key[i];
            mixed[48 + i] = resp_body_iv[i];
            i += 1;
        }
        let request_body_iv = slice_to_vec(slice_subrange(mixed.as_slice(), 0, 16));
        let request_body_key = slice_to_vec(slice_subrange(mixed.as_slice(), 16, 32));
        let response_body_key = slice_to_vec(slice_subrange(mixed.as_slice(), 32, 48));
        let response_body_iv = slice_to_vec(slice_subrange(mixed.as_slice(), 48, 64));
        proof {
            assert(request_body_iv@ =~= salt@.subrange(0, 16));
            assert(request_body_key@ =~= salt@.subrange(16, 32));
            assert(response_body_key@ =~= resp_body_key@.take(16));
            assert(response_body_iv@ =~= resp_body_iv@.take(16));
        }
        ClientSession {
            request_body_key,
            request_body_iv,
            response_body_key,
            response_body_iv,
            response_header: respv,
        }
    }

    /// The session of a salt as it was drawn: the one derived from it, and
    /// none for the salt that is all zero.
    pub fn try_from_salt(salt: &[u8; 64]) -> (r: Option<ClientSession>)
        ensures
            r is None <==> is_all_zero(salt@),
            r is Some ==> r.unwrap().derived_from(salt@) && r.unwrap().well_formed(),
    {
        if all_zero(salt.as_slice()) {
            None
        } else {
            Some(ClientSession::from_salt(salt))
        }
    }

    /// Draws a random 64-byte salt and derives the session from it. There
    /// is no session where no salt with a byte other than zero came within
    /// the draws that [`random_iv_or_salt`] makes.
    pub fn new() -> (r: Option<ClientSession>)
        ensures
            r.is_some() ==> r.unwrap().well_formed(),
            r.is_some() ==> exists|salt: Seq<u8>|
                salt.len() == 64 && !is_all_zero(salt) && #[trigger] r.unwrap().derived_from(salt),
    {
        let mut salt = [0u8; 64];
        let _drawn: bool = random_iv_or_salt(&mut salt);
        let r = ClientSession::try_from_salt(&salt);
        proof {
            assert(salt@.len() == 64);
            if r is Some {
                assert(r.unwrap().derived_from(salt@));
            }
        }
        r
    }
}

/// What a client asks of the server at the start of a connection.
pub struct RequestHeader {
    pub version: u8,
    pub command: u8,
    pub option: u8,
    pub security: u8,
    /// The destination in its wire form, port before host.
    pub address: Vec<u8>,
    /// The client's identifier.
    pub uuid: [u8; 16],
}

/// The byte that carries the padding length in its high half and the cipher
/// selector in its low half.
pub open spec fn security_byte(padding_len: u8, security: u8) -> u8 {
    (padding_len << 4) | security
}

/// The header from the version byte to the end of the padding.
pub open spec fn plain_header(h: RequestHeader, sess: ClientSession, padding: Seq<u8>) -> Seq<u8> {
    seq![h.version] + sess.request_body_iv@ + sess.request_body_key@ + seq![
        sess.response_header,
        h.option,
        security_byte(padding.len() as u8, h.security),
        0u8,
        h.command,
    ] + h.address@ + padding
}

/// `body` followed by its FNV-1a checksum, most significant byte first.
pub open spec fn with_checksum(body: Seq<u8>) -> Seq<u8> {
    body + be32(fnv1a32(body))
}

/// What is sealed for a header: the header from the version byte to the
/// end of the padding, then the checksum of just that.
pub open spec fn header_to_seal(h: RequestHeader, sess: ClientSession, padding: Seq<u8>) -> Seq<
    u8,
> {
    with_checksum(plain_header(h, sess, padding))
}

/// The text that is hashed behind the client's identifier to give the key
/// under which the header is sealed: `c48619fe-8f02-49e0-b9e9-edf763e17e21`.
pub open spec fn command_key_salt() -> Seq<u8> {
    seq![
        0x63u8, 0x34, 0x38, 0x36, 0x31, 0x39, 0x66, 0x65, 0x2d, 0x38, 0x66, 0x30, 0x32, 0x2d, 0x34,
        0x39, 0x65, 0x30, 0x2d, 0x62, 0x39, 0x65, 0x39, 0x2d, 0x65, 0x64, 0x66, 0x37, 0x36, 0x33,
        0x65, 0x31, 0x37, 0x65, 0x32, 0x31,
    ]
}

/// The key under which a client's header is sealed: the MD5 digest of its
/// identifier followed by [`command_key_salt`].
pub open spec fn command_key_of(uuid: Seq<u8>) -> Seq<u8> {
    md5_digest(uuid + command_key_salt())
}

/// What a reader of the header takes from it.
pub struct HeaderFields {
    pub version: u8,
    pub request_body_iv: Seq<u8>,
    pub request_body_key: Seq<u8>,
    pub response_header: u8,
    pub option: u8,
    pub padding_len: u8,
    pub security: u8,
    pub command: u8,
    pub address: Seq<u8>,
}

/// Reads a header with its checksum back into its fields. There is none
/// where the bytes are too few for the padding they announce, the reserved
/// byte is not zero, or the checksum does not match.
pub open spec fn parse_header(bytes: Seq<u8>) -> Option<HeaderFields> {
    if bytes.len() < HEADER_FIXED_LEN + 4 {
        None
    } else {
        let padding_len = bytes[35] >> 4;
        let end = bytes.len() - 4 - padding_len;
        if end < HEADER_FIXED_LEN || bytes[36] != 0 || bytes.skip(bytes.len() - 4) != be32(
            fnv1a32(bytes.take(bytes.len() - 4)),
        ) {
            None
        } else {
            Some(
                HeaderFields {
                    version: bytes[0],
                    request_body_iv: bytes.subrange(1, 17),
                    request_body_key: bytes.subrange(17, 33),
                    response_header: bytes[33],
                    option: bytes[34],
                    padding_len,
                    security: bytes[35] & 0x0f,
                    command: bytes[37],
                    address: bytes.subrange(HEADER_FIXED_LEN as int, end),
                },
            )
        }
    }
}

impl RequestHeader {
    /// Turns on the options whose bits are set in `opt`.
    pub fn set_option(&mut self, opt: u8)
        ensures
            final(self).option == old(self).option | opt,
            final(self).version == old(self).version,
            final(self).command == old(self).command,
            final(self).security == old(self).security,
            final(self).address == old(self).address,
            final(self).uuid == old(self).uuid,
    {
        self.option |= opt;
    }

    /// Appends the header with the given padding to `buf`, then the
    /// checksum of the header. What `buf` held before stays in front and
    /// is no part of what the checksum covers.
    pub fn encode_plain(&self, buf: &mut BytesMut, sess: &ClientSession, padding: &[u8])
        requires
            padding@.len() < 16,
        ensures
            bytes_of(*final(buf)) == bytes_of(*old(buf)) + header_to_seal(*self, *sess, padding@),
    {
        let start = buf.len();
        put_u8(buf, self.version);
        buf.put_slice(sess.request_body_iv.as_slice());
        buf.put_slice(sess.request_body_key.as_slice());
        put_u8(buf, sess.response_header);
        put_u8(buf, self.option);

        let padding_len = padding.len() as u8;
        let security = (padding_len << 4) | self.security;

        put_u8(buf, security);
        put_u8(buf, 0);
        put_u8(buf, self.command);

        buf.put_slice(self.address.as_slice());

        if padding_len > 0 {
            buf.put_slice(padding);
        }
        proof {
            assert(bytes_of(*buf) =~= bytes_of(*old(buf)) + plain_header(*self, *sess, padding@));
            assert(bytes_of(*buf).subrange(start as int, bytes_of(*buf).len() as int)
                =~= plain_header(*self, *sess, padding@));
        }

        let held: &[u8] = &*buf;
        let h = fnv1a32_hash(slice_subrange(held, start, held.len()));
        let sum = be32_bytes(h);
        buf.put_slice(sum.as_slice());
        proof {
            assert(bytes_of(*buf) =~= bytes_of(*old(buf)) + header_to_seal(
                *self,
                *sess,
                padding@,
            ));
        }
    }

    /// The key under which this client's header is sealed.
    pub fn command_key(&self) -> (key: [u8; 16])
        ensures
            key@ == command_key_of(self.uuid@),
    {
        let salt: [u8; 36] = [
            0x63, 0x34, 0x38, 0x36, 0x31, 0x39, 0x66, 0x65, 0x2d, 0x38, 0x66, 0x30, 0x32, 0x2d,
            0x34, 0x39, 0x65, 0x30, 0x2d, 0x62, 0x39, 0x65, 0x39, 0x2d, 0x65, 0x64, 0x66, 0x37,
            0x36, 0x33, 0x65, 0x31, 0x37, 0x65, 0x32, 0x31,
        ];
        let mut text = slice_to_vec(self.uuid.as_slice());
        text.extend_from_slice(salt.as_slice());
        proof {
            assert(salt@ =~= command_key_salt());
            assert(text@ =~= self.uuid@ + command_key_salt());
        }
        md5(text.as_slice())
    }

    /// Encodes the header for `sess` and seals it: draws the padding,
    /// lays out the padded header and its checksum, and puts into `buf`
    /// what `seal` makes of them under the client's 16-byte key. What `buf`
    /// held before is dropped: it is no part of what is checksummed or
    /// sealed.
    ///
    /// `seal` is called once, with the key first and the bytes to seal
    /// second.
    pub fn encode<F: Fn(&[u8], &[u8]) -> BytesMut>(
        &self,
        buf: &mut BytesMut,
        sess: &ClientSession,
        seal: F,
    )
        requires
            forall|key: &[u8], data: &[u8]| key@.len() == 16 ==> call_requires(seal, (key, data)),
        ensures
            exists|padding: Seq<u8>, key: &[u8], data: &[u8]|
                #![trigger
                    header_to_seal(*self, *sess, padding),
                    call_ensures(seal, (key, data), *final(buf)),
                ]
                {
                    &&& padding.len() < 16
                    &&& key@.len() == 16
                    &&& key@ == command_key_of(self.uuid@)
                    &&& data@ == header_to_seal(*self, *sess, padding)
                    &&& call_ensures(seal, (key, data), *final(buf))
                },
    {
        let mut rng = entropy_rng();
        let padding_len = gen_below(&mut rng, 16) % 16_u8;
        let mut padding: Vec<u8> = Vec::new();
        if padding_len > 0 {
            let mut rng = entropy_rng();
            let mut i: u8 = 0;
            while i < padding_len
                invariant
                    i <= padding_len,
                    padding@.len() == i,
                decreases padding_len - i,
            {
                padding.push(gen_byte(&mut rng));
                i += 1;
            }
        }
        let mut plain = BytesMut::new();
        self.encode_plain(&mut plain, sess, padding.as_slice());
        proof {
            assert(bytes_of(plain) =~= header_to_seal(*self, *sess, padding@));
        }
        let key = self.command_key();
        let aead_buf = seal(key.as_slice(), &*plain);
        *buf = aead_buf;
    }
}

/// A header with its checksum reads back as the fields it was made from,
/// whatever the padding.
pub proof fn lemma_header_round_trip(h: RequestHeader, sess: ClientSession, padding: Seq<u8>)
    requires
        sess.well_formed(),
        h.security <= 0x0f,
        padding.len() < 16,
    ensures
        parse_header(header_to_seal(h, sess, padding)) == Some(
            HeaderFields {
                version: h.version,
                request_body_iv: sess.request_body_iv@,
                request_body_key: sess.request_body_key@,
                response_header: sess.response_header,
                option: h.option,
                padding_len: padding.len() as u8,
                security: h.security,
                command: h.command,
                address: h.address@,
            },
        ),
{
    let body = plain_header(h, sess, padding);
    let bytes = with_checksum(body);
    let p = padding.len() as u8;
    let s = h.security;
    assert(p < 16 && s <= 0x0f ==> (((p << 4) | s) >> 4 == p && ((p << 4) | s) & 0x0f == s))
        by (bit_vector);
    assert(bytes.take(bytes.len() - 4) =~= body);
    assert(bytes.skip(bytes.len() - 4) =~= be32(fnv1a32(body)));
    assert(bytes.subrange(1, 17) =~= sess.request_body_iv@);
    assert(bytes.subrange(17, 33) =~= sess.request_body_key@);
    assert(bytes.subrange(HEADER_FIXED_LEN as int, bytes.len() - 4 - p) =~= h.address@);
}

} // verus!
