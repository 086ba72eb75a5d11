//! The chunk stream that carries the body of a connection: each chunk is
//! sealed under its own nonce and framed by the length of what was sealed.
//!
//! A writer turns plaintext into frames and keeps what the transport has
//! not taken yet; a reader collects what the transport delivers and gives
//! out the plaintext of each chunk once all of it has arrived.

use crate::aead_helper::{
    opened_in_place, AeadCipherHelper, Aes128Gcm, ChaCha20Poly1305, NONCE_LEN, TAG_LEN,
};
use crate::buffer::{bytes_of, put_u8};
use crate::protocol::{SECURITY_TYPE_AES128_GCM, SECURITY_TYPE_CHACHA20_POLY1305};
use crate::round_trip::{
    drained, lemma_frame_reads, lemma_read_run_extended, reader_at, sent, sent_all,
};
use bytes::{Buf, BufMut, BytesMut};
use vstd::prelude::*;
use vstd::slice::slice_subrange;

verus! {

/// The most plaintext that one chunk carries.
pub const MAX_CHUNK_PLAINTEXT: usize = 0x4000;

/// The cipher that protects the chunks of one direction of a connection.
pub enum VmessSecurity {
    Aes128Gcm(Aes128Gcm),
    ChaCha20Poly1305(ChaCha20Poly1305),
}

impl VmessSecurity {
    /// The cipher that a header's selector names, where `key` has the
    /// length that the cipher takes: 16 bytes for AES-128-GCM, 32 for
    /// ChaCha20-Poly1305. No other selector names a cipher.
    pub fn new(selector: u8, key: &[u8]) -> (security: Option<VmessSecurity>)
        ensures
            selector == SECURITY_TYPE_AES128_GCM && key@.len() == 16 ==> (security matches Some(
                VmessSecurity::Aes128Gcm(c),
            ) && c.key() == key@),
            selector == SECURITY_TYPE_CHACHA20_POLY1305 && key@.len() == 32 ==> (
            security matches Some(VmessSecurity::ChaCha20Poly1305(c)) && c.key() == key@),
            !(selector == SECURITY_TYPE_AES128_GCM && key@.len() == 16) && !(selector
                == SECURITY_TYPE_CHACHA20_POLY1305 && key@.len() == 32) ==> security is None,
    {
        if selector == SECURITY_TYPE_AES128_GCM && key.len() == 16 {
            Some(VmessSecurity::Aes128Gcm(Aes128Gcm::new_with_slice(key)))
        } else if selector == SECURITY_TYPE_CHACHA20_POLY1305 && key.len() == 32 {
            Some(VmessSecurity::ChaCha20Poly1305(ChaCha20Poly1305::new_with_slice(key)))
        } else {
            None
        }
    }

    /// What this cipher makes of `msg`: the ciphertext followed by the tag.
    pub open spec fn sealed(&self, nonce: Seq<u8>, aad: Seq<u8>, msg: Seq<u8>) -> Seq<u8> {
        match self {
            VmessSecurity::Aes128Gcm(c) => c.sealed(nonce, aad, msg),
            VmessSecurity::ChaCha20Poly1305(c) => c.sealed(nonce, aad, msg),
        }
    }

    /// The message that this cipher recovers from a ciphertext and tag, if
    /// the tag authenticates it.
    pub open spec fn opened(&self, nonce: Seq<u8>, aad: Seq<u8>, sealed: Seq<u8>) -> Option<
        Seq<u8>,
    > {
        match self {
            VmessSecurity::Aes128Gcm(c) => c.opened(nonce, aad, sealed),
            VmessSecurity::ChaCha20Poly1305(c) => c.opened(nonce, aad, sealed),
        }
    }

    /// The longest message that this cipher encrypts.
    pub open spec fn max_message_len(&self) -> nat {
        match self {
            VmessSecurity::Aes128Gcm(_) => Aes128Gcm::max_message_len(),
            VmessSecurity::ChaCha20Poly1305(_) => ChaCha20Poly1305::max_message_len(),
        }
    }

    /// The longest associated data that this cipher takes.
    pub open spec fn max_aad_len(&self) -> nat {
        match self {
            VmessSecurity::Aes128Gcm(_) => Aes128Gcm::max_aad_len(),
            VmessSecurity::ChaCha20Poly1305(_) => ChaCha20Poly1305::max_aad_len(),
        }
    }

    /// The longest ciphertext that this cipher takes for decryption.
    pub open spec fn max_ciphertext_len(&self) -> nat {
        match self {
            VmessSecurity::Aes128Gcm(_) => Aes128Gcm::max_ciphertext_len(),
            VmessSecurity::ChaCha20Poly1305(_) => ChaCha20Poly1305::max_ciphertext_len(),
        }
    }

    /// By how much a sealed message is longer than the message.
    #[inline(always)]
    pub fn overhead_len(&self) -> (n: usize)
        ensures
            n == 16,
    {
        16
    }

    /// The length of a nonce.
    #[inline(always)]
    pub fn nonce_len(&self) -> (n: usize)
        ensures
            n == 12,
    {
        12
    }

    /// The length of a tag.
    #[inline(always)]
    pub fn tag_len(&self) -> (n: usize)
        ensures
            n == 16,
    {
        16
    }

    /// Encrypts the message that `buffer` holds before its last 16 bytes,
    /// and writes the tag into those.
    pub fn encrypt_in_place(&self, nonce: &[u8], aad: &[u8], buffer: &mut [u8])
        requires
            nonce@.len() == NONCE_LEN,
            old(buffer)@.len() >= TAG_LEN,
            old(buffer)@.len() - TAG_LEN <= self.max_message_len(),
            aad@.len() <= self.max_aad_len(),
        ensures
            final(buffer)@.len() == old(buffer)@.len(),
            final(buffer)@ == self.sealed(
                nonce@,
                aad@,
                old(buffer)@.take(old(buffer)@.len() - TAG_LEN),
            ),
            self.opened(nonce@, aad@, final(buffer)@) == Some(
                old(buffer)@.take(old(buffer)@.len() - TAG_LEN),
            ),
    {
        match self {
            VmessSecurity::Aes128Gcm(c) => c.encrypt_inplace_with_slice(nonce, aad, buffer),
            VmessSecurity::ChaCha20Poly1305(c) => c.encrypt_inplace_with_slice(nonce, aad, buffer),
        }
    }

    /// Checks the tag in the last 16 bytes of `buffer` and, where it
    /// authenticates the ciphertext before it, replaces the ciphertext by
    /// the message. Where it does not, the buffer stays as it was. The tag
    /// stays in either case.
    pub fn decrypt_in_place(&self, nonce: &[u8], aad: &[u8], buffer: &mut [u8]) -> (ok: bool)
        requires
            nonce@.len() == NONCE_LEN,
            old(buffer)@.len() >= TAG_LEN,
            old(buffer)@.len() - TAG_LEN <= self.max_ciphertext_len(),
        ensures
            opened_in_place(
                self.opened(nonce@, aad@, old(buffer)@),
                old(buffer)@,
                ok,
                final(buffer)@,
            ),
    {
        match self {
            VmessSecurity::Aes128Gcm(c) => c.decrypt_in_place_with_slice(nonce, aad, buffer),
            VmessSecurity::ChaCha20Poly1305(c) => c.decrypt_in_place_with_slice(nonce, aad, buffer),
        }
    }
}

/// The counter of the chunk that follows chunk `count`. It starts again
/// from zero after 65535.
pub open spec fn next_count(count: u16) -> u16 {
    if count == 0xffff {
        0
    } else {
        (count + 1) as u16
    }
}

/// The nonce of chunk `count`: the counter, most significant byte first,
/// in place of the first two bytes of the IV, cut to 12 bytes.
pub open spec fn chunk_nonce(iv: Seq<u8>, count: u16) -> Seq<u8> {
    seq![(count / 256) as u8, (count % 256) as u8] + iv.subrange(2, NONCE_LEN as int)
}

/// The two bytes of a length, most significant first.
pub open spec fn be16(n: int) -> Seq<u8> {
    seq![(n / 256) as u8, (n % 256) as u8]
}

/// The length that two bytes stand for.
pub open spec fn be16_value(hi: u8, lo: u8) -> int {
    hi * 256 + lo
}

/// One chunk on the wire: the length of what was sealed, then the
/// ciphertext and the tag.
pub open spec fn chunk_frame(security: VmessSecurity, iv: Seq<u8>, count: u16, data: Seq<u8>) -> Seq<
    u8,
> {
    be16(data.len() + TAG_LEN) + security.sealed(chunk_nonce(iv, count), Seq::empty(), data)
}

/// Chunk `count` with the plaintext `data` can be read back: its frame is
/// 18 bytes longer than `data`, and what follows the two bytes of the length
/// opens to `data` under the nonce of `count`. A writer states this of every
/// chunk it seals.
pub open spec fn chunk_opens(security: VmessSecurity, iv: Seq<u8>, count: u16, data: Seq<u8>) -> bool {
    &&& chunk_frame(security, iv, count, data).len() == data.len() + 2 + TAG_LEN
    &&& security.opened(
        chunk_nonce(iv, count),
        Seq::empty(),
        chunk_frame(security, iv, count, data).skip(2),
    ) == Some(data)
}

fn make_nonce(iv: &[u8], count: u16) -> (nonce: [u8; 12])
    requires
        iv@.len() >= NONCE_LEN,
    ensures
        nonce@ == chunk_nonce(iv@, count),
{
    let mut nonce: [u8; 12] = [0u8; 12];
    nonce[0] = (count / 256) as u8;
    nonce[1] = (count % 256) as u8;
    let mut i: usize = 2;
    while i < 12
        invariant
            2 <= i <= 12,
            iv@.len() >= NONCE_LEN,
            nonce@[0] == (count / 256) as u8,
            nonce@[1] == (count % 256) as u8,
            forall|j: int| 2 <= j < i ==> nonce@[j] == iv@[j],
        decreases 12 - i,
    {
        nonce[i] = iv[i];
        i += 1;
    }
    proof {
        assert(nonce@ =~= chunk_nonce(iv@, count));
    }
    nonce
}

fn following(count: u16) -> (next: u16)
    ensures
        next == next_count(count),
{
    if count == 0xffff {
        0
    } else {
        count + 1
    }
}

/// Where a reader stands.
#[derive(Clone, Copy, PartialEq, Eq, Debug)]
pub enum ReadPhase {
    /// The length of the next chunk has not arrived in full.
    AwaitingLength,
    /// The length is known; the chunk has not arrived in full.
    AwaitingPayload,
    /// The chunk that ends the stream was read.
    Done,
    /// The stream was given up.
    Failed(ReadError),
}

/// Why a reader gave a stream up.
#[derive(Clone, Copy, PartialEq, Eq, Debug)]
pub enum ReadError {
    /// A chunk announced a length too short to hold a tag.
    MalformedLength,
    /// The tag of a chunk did not authenticate it.
    AuthenticationFailed,
}

/// What one attempt to read brought.
#[derive(Clone, Copy, PartialEq, Eq, Debug)]
pub enum ReadEvent {
    /// Nothing yet: at least this many more bytes must arrive first.
    NeedMore(usize),
    /// The plaintext of one chunk, of this length, was given out.
    Data(usize),
    /// The stream has ended.
    End,
}

/// All that a reader's behaviour depends on.
pub struct ReaderState {
    pub security: VmessSecurity,
    pub iv: Seq<u8>,
    /// The counter of the next chunk to open.
    pub count: u16,
    pub phase: ReadPhase,
    /// The length of what was sealed in the chunk that is awaited.
    pub data_length: usize,
    /// The bytes that arrived and were not used yet.
    pub buffer: Seq<u8>,
}

/// A reader's state after an attempt to read, what the attempt reports, and
/// the plaintext it gave out.
pub struct ReadStep {
    pub state: ReaderState,
    pub result: Result<ReadEvent, ReadError>,
    pub plaintext: Seq<u8>,
}

/// The state after `data` arrived.
pub open spec fn fed(s: ReaderState, data: Seq<u8>) -> ReaderState {
    ReaderState { buffer: s.buffer + data, ..s }
}

/// A stream is given up: what arrived is dropped, and every later attempt
/// reports the same error.
pub open spec fn read_failure(s: ReaderState, e: ReadError) -> ReadStep {
    ReadStep {
        state: ReaderState { phase: ReadPhase::Failed(e), buffer: Seq::empty(), ..s },
        result: Err(e),
        plaintext: Seq::empty(),
    }
}

/// One attempt to read once the length of the chunk is known.
pub open spec fn read_payload(s: ReaderState) -> ReadStep {
    if s.data_length < TAG_LEN {
        read_failure(s, ReadError::MalformedLength)
    } else if s.buffer.len() < s.data_length {
        ReadStep {
            state: s,
            result: Ok(ReadEvent::NeedMore((s.data_length - s.buffer.len()) as usize)),
            plaintext: Seq::empty(),
        }
    } else {
        match s.security.opened(
            chunk_nonce(s.iv, s.count),
            Seq::empty(),
            s.buffer.take(s.data_length as int),
        ) {
            None => read_failure(s, ReadError::AuthenticationFailed),
            Some(plaintext) => if s.data_length == TAG_LEN {
                ReadStep {
                    state: ReaderState {
                        count: next_count(s.count),
                        phase: ReadPhase::Done,
                        buffer: s.buffer.skip(s.data_length as int),
                        ..s
                    },
                    result: Ok(ReadEvent::End),
                    plaintext: Seq::empty(),
                }
            } else {
                ReadStep {
                    state: ReaderState {
                        count: next_count(s.count),
                        phase: ReadPhase::AwaitingLength,
                        buffer: s.buffer.skip(s.data_length as int),
                        ..s
                    },
                    result: Ok(ReadEvent::Data((s.data_length - TAG_LEN) as usize)),
                    plaintext,
                }
            },
        }
    }
}

/// One attempt to read: at most one chunk is opened.
pub open spec fn read_step(s: ReaderState) -> ReadStep {
    match s.phase {
        ReadPhase::Done => ReadStep { state: s, result: Ok(ReadEvent::End), plaintext: Seq::empty() },
        ReadPhase::Failed(e) => ReadStep { state: s, result: Err(e), plaintext: Seq::empty() },
        ReadPhase::AwaitingPayload => read_payload(s),
        ReadPhase::AwaitingLength => if s.buffer.len() < 2 {
            ReadStep {
                state: s,
                result: Ok(ReadEvent::NeedMore((2 - s.buffer.len()) as usize)),
                plaintext: Seq::empty(),
            }
        } else {
            read_payload(
                ReaderState {
                    phase: ReadPhase::AwaitingPayload,
                    data_length: be16_value(s.buffer[0], s.buffer[1]) as usize,
                    buffer: s.buffer.skip(2),
                    ..s
                },
            )
        },
    }
}

/// Attempts to read until one of them gives out no plaintext: every chunk
/// that has arrived in full is opened.
pub open spec fn read_run(s: ReaderState) -> ReadStep
    decreases s.buffer.len(),
{
    let step = read_step(s);
    if step.result matches Ok(ReadEvent::Data(_)) {
        let more = read_run(step.state);
        ReadStep {
            state: more.state,
            result: more.result,
            plaintext: step.plaintext + more.plaintext,
        }
    } else {
        step
    }
}

/// The receiving end of a chunk stream.
pub struct VmessAeadReader {
    security: VmessSecurity,
    buffer: BytesMut,
    phase: ReadPhase,
    iv: BytesMut,
    data_length: usize,
    count: u16,
}

impl View for VmessAeadReader {
    type V = ReaderState;

    closed spec fn view(&self) -> ReaderState {
        ReaderState {
            security: self.security,
            iv: bytes_of(self.iv),
            count: self.count,
            phase: self.phase,
            data_length: self.data_length,
            buffer: bytes_of(self.buffer),
        }
    }
}

impl VmessAeadReader {
    /// The IV is 16 bytes long, and the length of a chunk is one that two
    /// bytes can say.
    pub open spec fn wf(&self) -> bool {
        &&& self@.iv.len() == 16
        &&& self@.data_length <= 0xffff
    }

    /// Makes the reader of a stream whose chunks are counted from zero.
    pub fn new(iv: &[u8], security: VmessSecurity) -> (reader: VmessAeadReader)
        requires
            iv@.len() == 16,
        ensures
            reader.wf(),
            reader@ == (ReaderState {
                security,
                iv: iv@,
                count: 0,
                phase: ReadPhase::AwaitingLength,
                data_length: 0,
                buffer: Seq::empty(),
            }),
    {
        let iv = BytesMut::from(iv);
        let buffer = BytesMut::new();
        VmessAeadReader {
            security,
            buffer,
            phase: ReadPhase::AwaitingLength,
            iv,
            data_length: 0,
            count: 0,
        }
    }

    /// Where the reader stands.
    pub fn phase(&self) -> (phase: ReadPhase)
        ensures
            phase == self@.phase,
    {
        self.phase
    }

    /// Takes in what the transport delivered.
    pub fn feed(&mut self, data: &[u8])
        requires
            old(self).wf(),
        ensures
            final(self).wf(),
            final(self)@ == fed(old(self)@, data@),
    {
        self.buffer.put_slice(data);
    }

    /// Puts `buffer` in the place of what arrived and was not used yet, and
    /// hands that out.
    pub fn replace_buffer(&mut self, buffer: BytesMut) -> (held: BytesMut)
        requires
            old(self).wf(),
        ensures
            final(self).wf(),
            final(self)@ == (ReaderState { buffer: bytes_of(buffer), ..old(self)@ }),
            bytes_of(held) == old(self)@.buffer,
    {
        let mut buffer = buffer;
        core::mem::swap(&mut self.buffer, &mut buffer);
        buffer
    }

    fn fail(&mut self, e: ReadError)
        requires
            old(self).wf(),
        ensures
            final(self).wf(),
            final(self)@ == read_failure(old(self)@, e).state,
    {
        self.buffer.clear();
        self.phase = ReadPhase::Failed(e);
    }

    /// Attempts to read one chunk from what has arrived, and appends its
    /// plaintext to `out`.
    ///
    /// While a chunk has not arrived in full the reader waits for more.
    /// A chunk whose tag does not authenticate it, or whose length cannot
    /// hold a tag, ends the stream with an error: nothing of the chunk is
    /// given out, and every later attempt reports the same error. After the
    /// chunk that ends the stream every attempt reports the end and leaves
    /// the reader as it is.
    pub fn poll(&mut self, out: &mut Vec<u8>) -> (result: Result<ReadEvent, ReadError>)
        requires
            old(self).wf(),
        ensures
            final(self).wf(),
            final(self)@ == read_step(old(self)@).state,
            result == read_step(old(self)@).result,
            final(out)@ == old(out)@ + read_step(old(self)@).plaintext,
    {
        match self.phase {
            ReadPhase::Done => {
                return Ok(ReadEvent::End);
            },
            ReadPhase::Failed(e) => {
                return Err(e);
            },
            ReadPhase::AwaitingLength => {
                let have = self.buffer.len();
                if have < 2 {
                    return Ok(ReadEvent::NeedMore(2 - have));
                }
                let held: &[u8] = &self.buffer;
                let length = (held[0] as usize) * 256 + (held[1] as usize);
                self.buffer.advance(2);
                self.data_length = length;
                self.phase = ReadPhase::AwaitingPayload;
            },
            ReadPhase::AwaitingPayload => {},
        }
        let ghost awaiting = self@;
        let length = self.data_length;
        if length < TAG_LEN {
            self.fail(ReadError::MalformedLength);
            return Err(ReadError::MalformedLength);
        }
        let have = self.buffer.len();
        if have < length {
            return Ok(ReadEvent::NeedMore(length - have));
        }
        let nonce = make_nonce(&self.iv, self.count);
        let aad: [u8; 0] = [];
        let held: &mut [u8] = &mut self.buffer;
        let (chunk, rest) = held.split_at_mut(length);
        let ok = self.security.decrypt_in_place(nonce.as_slice(), aad.as_slice(), chunk);
        proof {
            assert(awaiting.buffer.take(length as int) == awaiting.buffer.subrange(
                0,
                length as int,
            ));
            assert(aad@ =~= Seq::<u8>::empty());
        }
        if !ok {
            self.fail(ReadError::AuthenticationFailed);
            return Err(ReadError::AuthenticationFailed);
        }
        let plain_len = length - TAG_LEN;
        let held: &[u8] = &self.buffer;
        if plain_len > 0 {
            out.extend_from_slice(slice_subrange(held, 0, plain_len));
        }
        proof {
            assert(bytes_of(self.buffer).skip(length as int) =~= awaiting.buffer.skip(
                length as int,
            ));
            assert(bytes_of(self.buffer).subrange(0, plain_len as int) =~= bytes_of(
                self.buffer,
            ).take(length as int).take(plain_len as int));
        }
        self.buffer.advance(length);
        self.count = following(self.count);
        if plain_len == 0 {
            self.phase = ReadPhase::Done;
            proof {
                assert(out@ =~= old(out)@ + Seq::<u8>::empty());
            }
            Ok(ReadEvent::End)
        } else {
            self.phase = ReadPhase::AwaitingLength;
            Ok(ReadEvent::Data(plain_len))
        }
    }

    /// Takes in what the transport delivered, opens every chunk that has
    /// then arrived in full, and appends their plaintext to `out`. Reports
    /// how the last attempt ended: with a wait for more, the end of the
    /// stream, or an error.
    pub fn read(&mut self, input: &[u8], out: &mut Vec<u8>) -> (result: Result<
        ReadEvent,
        ReadError,
    >)
        requires
            old(self).wf(),
        ensures
            final(self).wf(),
            final(self)@ == read_run(fed(old(self)@, input@)).state,
            result == read_run(fed(old(self)@, input@)).result,
            final(out)@ == old(out)@ + read_run(fed(old(self)@, input@)).plaintext,
    {
        self.feed(input);
        let ghost start = self@;
        let ghost before = out@;
        loop
            invariant
                self.wf(),
                start == fed(old(self)@, input@),
                before == old(out)@,
                read_run(start).state == read_run(self@).state,
                read_run(start).result == read_run(self@).result,
                before + read_run(start).plaintext == out@ + read_run(self@).plaintext,
            decreases self@.buffer.len(),
        {
            let ghost here = self@;
            let ghost given = out@;
            let result = self.poll(out);
            proof {
                lemma_read_run_unfolds(here);
                let step = read_step(here);
                assert(given + (step.plaintext + read_run(step.state).plaintext) =~= (given
                    + step.plaintext) + read_run(step.state).plaintext);
            }
            match result {
                Ok(ReadEvent::Data(_)) => {},
                _ => {
                    return result;
                },
            }
        }
    }
}

/// Where a writer stands.
#[derive(Clone, Copy, PartialEq, Eq, Debug)]
pub enum WritePhase {
    /// Nothing is pending: the next chunk can be sealed.
    Ready,
    /// A chunk was sealed and the transport has not taken all of it.
    Sending,
    /// The chunk that ends the stream was sealed and the transport has not
    /// taken all of it.
    Closing,
    /// The chunk that ends the stream was sent. Nothing more is written.
    Closed,
}

/// All that a writer's behaviour depends on.
pub struct WriterState {
    pub security: VmessSecurity,
    pub iv: Seq<u8>,
    /// The counter of the next chunk to seal.
    pub count: u16,
    pub phase: WritePhase,
    /// What was sealed and not yet taken by the transport.
    pub pending: Seq<u8>,
}

/// How much of `len` bytes of plaintext a writer takes into one chunk:
/// nothing while it is not ready, else as much as one chunk carries.
pub open spec fn accepted_len(s: WriterState, len: nat) -> nat {
    if !(s.phase is Ready) {
        0
    } else if len > MAX_CHUNK_PLAINTEXT {
        MAX_CHUNK_PLAINTEXT as nat
    } else {
        len
    }
}

/// The state after one chunk with the plaintext `data` was sealed: the
/// chunk is pending and the counter has moved on by one.
pub open spec fn chunk_sealed(s: WriterState, data: Seq<u8>, phase: WritePhase) -> WriterState {
    WriterState {
        count: next_count(s.count),
        phase,
        pending: chunk_frame(s.security, s.iv, s.count, data),
        ..s
    }
}

/// The state after `data` was offered: as much of it as the writer takes is
/// sealed into one chunk. A writer that takes nothing stays as it is.
pub open spec fn written(s: WriterState, data: Seq<u8>) -> WriterState {
    if accepted_len(s, data.len()) == 0 {
        s
    } else {
        chunk_sealed(s, data.take(accepted_len(s, data.len()) as int), WritePhase::Sending)
    }
}

/// The state after the end of the stream was asked for: a ready writer
/// seals the chunk without plaintext, any other stays as it is.
pub open spec fn shut_down(s: WriterState) -> WriterState {
    if s.phase is Ready {
        chunk_sealed(s, Seq::empty(), WritePhase::Closing)
    } else {
        s
    }
}

/// The state after the transport took `n` of the pending bytes, or all of
/// them where fewer are pending.
pub open spec fn advanced(s: WriterState, n: nat) -> WriterState {
    if n < s.pending.len() {
        WriterState { pending: s.pending.skip(n as int), ..s }
    } else {
        WriterState {
            pending: Seq::empty(),
            phase: match s.phase {
                WritePhase::Sending => WritePhase::Ready,
                WritePhase::Closing => WritePhase::Closed,
                phase => phase,
            },
            ..s
        }
    }
}

/// The sending end of a chunk stream.
pub struct VmessAeadWriter {
    security: VmessSecurity,
    buffer: BytesMut,
    pos: usize,
    iv: BytesMut,
    count: u16,
    phase: WritePhase,
}

impl View for VmessAeadWriter {
    type V = WriterState;

    closed spec fn view(&self) -> WriterState {
        WriterState {
            security: self.security,
            iv: bytes_of(self.iv),
            count: self.count,
            phase: self.phase,
            pending: bytes_of(self.buffer).skip(self.pos as int),
        }
    }
}

impl VmessAeadWriter {
    /// The IV is 16 bytes long, and something is pending exactly while a
    /// chunk is being sent.
    pub closed spec fn wf(&self) -> bool {
        &&& bytes_of(self.iv).len() == 16
        &&& self.pos <= bytes_of(self.buffer).len()
        &&& (self.phase is Ready || self.phase is Closed) <==> self.pos == bytes_of(
            self.buffer,
        ).len()
    }

    /// Makes the writer of a stream whose chunks are counted from zero.
    pub fn new(iv: &[u8], security: VmessSecurity) -> (writer: VmessAeadWriter)
        requires
            iv@.len() == 16,
        ensures
            writer.wf(),
            writer@ == (WriterState {
                security,
                iv: iv@,
                count: 0,
                phase: WritePhase::Ready,
                pending: Seq::empty(),
            }),
    {
        let iv = BytesMut::from(iv);
        let buffer = BytesMut::new();
        let writer = VmessAeadWriter {
            security,
            buffer,
            pos: 0,
            iv,
            count: 0,
            phase: WritePhase::Ready,
        };
        proof {
            assert(writer@.pending =~= Seq::<u8>::empty());
        }
        writer
    }

    /// Where the writer stands.
    pub fn phase(&self) -> (phase: WritePhase)
        ensures
            phase == self@.phase,
    {
        self.phase
    }

    /// What was sealed and is still to be handed to the transport.
    pub fn pending(&self) -> (bytes: &[u8])
        requires
            self.wf(),
        ensures
            bytes@ == self@.pending,
    {
        let held: &[u8] = &self.buffer;
        slice_subrange(held, self.pos, held.len())
    }

    /// Seals `data` into one chunk under the nonce of the current counter,
    /// and moves the counter on.
    fn seal_chunk(&mut self, data: &[u8], phase: WritePhase)
        requires
            old(self).wf(),
            old(self).phase is Ready,
            phase is Sending || phase is Closing,
            data@.len() <= MAX_CHUNK_PLAINTEXT,
        ensures
            final(self).wf(),
            final(self)@ == chunk_sealed(old(self)@, data@, phase),
            chunk_opens(old(self)@.security, old(self)@.iv, old(self)@.count, data@),
    {
        let sealed_len = data.len() + TAG_LEN;
        self.buffer.clear();
        put_u8(&mut self.buffer, (sealed_len / 256) as u8);
        put_u8(&mut self.buffer, (sealed_len % 256) as u8);
        self.buffer.put_slice(data);
        self.buffer.resize(2 + sealed_len, 0);
        let ghost assembled = bytes_of(self.buffer);
        let nonce = make_nonce(&self.iv, self.count);
        let aad: [u8; 0] = [];
        let held: &mut [u8] = &mut self.buffer;
        let (head, body) = held.split_at_mut(2);
        proof {
            assert(aad@ =~= Seq::<u8>::empty());
            assert(body@.take(body@.len() - TAG_LEN) =~= data@);
            assert(head@ =~= be16(data@.len() + TAG_LEN));
        }
        self.security.encrypt_in_place(nonce.as_slice(), aad.as_slice(), body);
        proof {
            assert(bytes_of(self.buffer).skip(0) =~= bytes_of(self.buffer));
            assert(bytes_of(self.buffer).skip(2) =~= body@);
        }
        self.count = following(self.count);
        self.pos = 0;
        self.phase = phase;
    }

    /// Takes plaintext for the next chunk and returns how much of `data`
    /// it took.
    ///
    /// A writer that is ready seals the first bytes of `data`, at most
    /// [`MAX_CHUNK_PLAINTEXT`] of them, into one chunk, which is then
    /// pending. While a chunk is pending, after the stream was ended, and
    /// of no data, it takes nothing and changes nothing.
    pub fn write(&mut self, data: &[u8]) -> (taken: usize)
        requires
            old(self).wf(),
        ensures
            final(self).wf(),
            taken == accepted_len(old(self)@, data@.len()),
            final(self)@ == written(old(self)@, data@),
            taken > 0 ==> chunk_opens(
                old(self)@.security,
                old(self)@.iv,
                old(self)@.count,
                data@.take(taken as int),
            ),
    {
        match self.phase {
            WritePhase::Ready => {},
            _ => {
                return 0;
            },
        }
        if data.len() == 0 {
            return 0;
        }
        let taken = if data.len() > MAX_CHUNK_PLAINTEXT {
            MAX_CHUNK_PLAINTEXT
        } else {
            data.len()
        };
        proof {
            assert(data@.take(taken as int) == data@.subrange(0, taken as int));
        }
        self.seal_chunk(slice_subrange(data, 0, taken), WritePhase::Sending);
        taken
    }

    /// Ends the stream: a writer that is ready seals the chunk without
    /// plaintext, which is then pending. Returns whether it did; any other
    /// writer stays as it is.
    pub fn shutdown(&mut self) -> (sealed: bool)
        requires
            old(self).wf(),
        ensures
            final(self).wf(),
            sealed == (old(self)@.phase is Ready),
            final(self)@ == shut_down(old(self)@),
            sealed ==> chunk_opens(
                old(self)@.security,
                old(self)@.iv,
                old(self)@.count,
                Seq::empty(),
            ),
    {
        match self.phase {
            WritePhase::Ready => {},
            _ => {
                return false;
            },
        }
        let nothing: [u8; 0] = [];
        proof {
            assert(nothing@ =~= Seq::<u8>::empty());
        }
        self.seal_chunk(nothing.as_slice(), WritePhase::Closing);
        true
    }

    /// Seals all of `data`, chunk by chunk, then the end of the stream, and
    /// appends every frame to `wire`. Only a writer that is ready does so;
    /// the result says whether it did.
    ///
    /// What is appended is what the writer hands to a transport that takes
    /// everything, and a reader that stands where the writer stood reads
    /// it back as `data`, followed by the end of the stream.
    pub fn write_all(&mut self, data: &[u8], wire: &mut Vec<u8>) -> (done: bool)
        requires
            old(self).wf(),
        ensures
            final(self).wf(),
            done == (old(self)@.phase is Ready),
            !done ==> final(self)@ == old(self)@ && final(wire)@ == old(wire)@,
            done ==> final(wire)@ == old(wire)@ + sent(old(self)@, data@),
            done ==> final(self)@ == sent_all(old(self)@, data@),
            done ==> read_run(fed(reader_at(old(self)@), sent(old(self)@, data@))).result == Ok::<
                _,
                ReadError,
            >(ReadEvent::End),
            done ==> read_run(fed(reader_at(old(self)@), sent(old(self)@, data@))).plaintext
                == data@,
    {
        match self.phase {
            WritePhase::Ready => {},
            _ => {
                return false;
            },
        }
        let ghost start = self@;
        let ghost reader = reader_at(start);
        let ghost emitted: Seq<u8> = Seq::empty();
        let ghost data_length: usize = 0;
        let mut at: usize = 0;
        proof {
            lemma_read_run_unfolds(reader);
            assert(fed(reader, emitted).buffer =~= reader.buffer);
            assert(fed(reader, emitted) == reader);
            assert(data@.skip(0) =~= data@);
            assert(data@.take(0) =~= Seq::<u8>::empty());
            assert(wire@ =~= old(wire)@ + emitted);
            assert(sent(start, data@) =~= emitted + sent(start, data@));
        }
        while at < data.len()
            invariant
                self.wf(),
                self@.phase is Ready,
                self@.security == start.security,
                self@.iv == start.iv,
                start == old(self)@,
                reader == reader_at(start),
                at <= data@.len(),
                wire@ == old(wire)@ + emitted,
                sent(start, data@) == emitted + sent(self@, data@.skip(at as int)),
                sent_all(start, data@) == sent_all(self@, data@.skip(at as int)),
                read_run(fed(reader, emitted)).result == Ok::<_, ReadError>(ReadEvent::NeedMore(2)),
                read_run(fed(reader, emitted)).plaintext == data@.take(at as int),
                read_run(fed(reader, emitted)).state == (ReaderState {
                    data_length,
                    ..reader_at(self@)
                }),
            decreases data@.len() - at,
        {
            let ghost before = self@;
            let ghost rest = data@.skip(at as int);
            let ghost waiting = read_run(fed(reader, emitted)).state;
            let taken = self.write(slice_subrange(data, at, data.len()));
            let frame = self.pending();
            let frame_len = frame.len();
            let ghost sealed = frame@;
            wire.extend_from_slice(frame);
            self.advance(frame_len);
            proof {
                let chunk = rest.take(taken as int);
                assert(data@.subrange(at as int, data@.len() as int) =~= rest);
                assert(self@ == drained(written(before, rest)));
                assert(rest.skip(taken as int) =~= data@.skip(at + taken));
                assert(sent(before, rest) == sealed + sent(self@, rest.skip(taken as int)));
                assert(sent_all(before, rest) == sent_all(self@, rest.skip(taken as int)));
                assert(emitted + (sealed + sent(self@, data@.skip(at + taken))) =~= (emitted
                    + sealed) + sent(self@, data@.skip(at + taken)));
                assert(wire@ =~= old(wire)@ + (emitted + sealed));

                let holding = fed(waiting, sealed);
                assert(holding.buffer =~= sealed);
                assert(sealed.take(2) =~= be16(chunk.len() + TAG_LEN));
                lemma_frame_reads(holding, chunk);
                lemma_read_run_extended(fed(reader, emitted), sealed);
                assert(fed(fed(reader, emitted), sealed).buffer =~= fed(
                    reader,
                    emitted + sealed,
                ).buffer);
                assert(fed(fed(reader, emitted), sealed) == fed(reader, emitted + sealed));
                assert(data@.take(at as int) + chunk =~= data@.take(at + taken));
                emitted = emitted + sealed;
                data_length = (chunk.len() + TAG_LEN) as usize;
            }
            at = at + taken;
        }
        let ghost before = self@;
        let ghost waiting = read_run(fed(reader, emitted)).state;
        self.shutdown();
        let frame = self.pending();
        let frame_len = frame.len();
        let ghost sealed = frame@;
        wire.extend_from_slice(frame);
        self.advance(frame_len);
        proof {
            let nothing = Seq::<u8>::empty();
            assert(data@.skip(at as int) =~= nothing);
            assert(data@.take(at as int) =~= data@);
            assert(sent(before, nothing) == sealed);
            assert(sent_all(before, nothing) == self@);
            assert(wire@ =~= old(wire)@ + (emitted + sealed));

            let holding = fed(waiting, sealed);
            assert(holding.buffer =~= sealed);
            assert(sealed.take(2) =~= be16(nothing.len() + TAG_LEN));
            lemma_frame_reads(holding, nothing);
            lemma_read_run_extended(fed(reader, emitted), sealed);
            assert(fed(fed(reader, emitted), sealed).buffer =~= fed(
                reader,
                emitted + sealed,
            ).buffer);
            assert(fed(fed(reader, emitted), sealed) == fed(reader, emitted + sealed));
            assert(data@ + nothing =~= data@);
        }
        true
    }

    /// Records that the transport took the first `n` pending bytes; more
    /// than is pending counts as all of it. Once nothing is pending the
    /// writer is ready for the next chunk, or closed after the last.
    pub fn advance(&mut self, n: usize)
        requires
            old(self).wf(),
        ensures
            final(self).wf(),
            final(self)@ == advanced(old(self)@, n as nat),
    {
        let left = self.buffer.len() - self.pos;
        if n < left {
            self.pos = self.pos + n;
            proof {
                assert(bytes_of(self.buffer).skip(self.pos as int) =~= old(self)@.pending.skip(
                    n as int,
                ));
            }
        } else {
            self.buffer.clear();
            self.pos = 0;
            match self.phase {
                WritePhase::Sending => {
                    self.phase = WritePhase::Ready;
                },
                WritePhase::Closing => {
                    self.phase = WritePhase::Closed;
                },
                _ => {},
            }
            proof {
                assert(bytes_of(self.buffer).skip(0) =~= Seq::<u8>::empty());
            }
        }
    }
}

/// An attempt that gives out plaintext leaves fewer bytes behind than it
/// found, so that a run goes on after it; after any other attempt the run
/// is over.
pub proof fn lemma_read_run_unfolds(s: ReaderState)
    ensures
        read_step(s).result matches Ok(ReadEvent::Data(_)) ==> {
            &&& read_step(s).state.buffer.len() < s.buffer.len()
            &&& read_run(s).state == read_run(read_step(s).state).state
            &&& read_run(s).result == read_run(read_step(s).state).result
            &&& read_run(s).plaintext == read_step(s).plaintext + read_run(
                read_step(s).state,
            ).plaintext
        },
        !(read_step(s).result matches Ok(ReadEvent::Data(_))) ==> read_run(s) == read_step(s),
{
}

} // verus!
