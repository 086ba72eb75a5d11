//! What holds of a chunk stream as a whole: nonces do not repeat, the
//! pieces in which a stream arrives do not matter, and a reader gets back
//! what a writer with the same key, IV and counter was given.

use crate::aead::{
    accepted_len, advanced, be16, be16_value, chunk_frame, chunk_nonce, chunk_opens, chunk_sealed,
    fed,
    lemma_read_run_unfolds, next_count, read_payload, read_run, read_step, shut_down, written,
    ReadEvent, ReadPhase, ReadStep, ReaderState, VmessSecurity, WritePhase, WriterState,
    MAX_CHUNK_PLAINTEXT,
};
use crate::aead_helper::TAG_LEN;
use vstd::prelude::*;

verus! {

/// The counter of the chunk that comes `chunks` chunks after chunk `start`.
pub open spec fn count_after(start: u16, chunks: nat) -> u16
    decreases chunks,
{
    if chunks == 0 {
        start
    } else {
        next_count(count_after(start, (chunks - 1) as nat))
    }
}

/// The counter after `chunks` chunks is the sum modulo 65536.
pub proof fn lemma_count_after_is_modular(start: u16, chunks: nat)
    ensures
        count_after(start, chunks) == (start + chunks) % 0x1_0000,
    decreases chunks,
{
    if chunks > 0 {
        lemma_count_after_is_modular(start, (chunks - 1) as nat);
    }
}

/// Chunks with different counters have different nonces.
pub proof fn lemma_nonce_tells_counters_apart(iv: Seq<u8>, a: u16, b: u16)
    requires
        a != b,
    ensures
        chunk_nonce(iv, a) != chunk_nonce(iv, b),
{
    let x = chunk_nonce(iv, a);
    let y = chunk_nonce(iv, b);
    assert(x[0] == (a / 256) as u8 && x[1] == (a % 256) as u8);
    assert(y[0] == (b / 256) as u8 && y[1] == (b % 256) as u8);
}

/// Among the first 65536 chunks of one direction no two have the same
/// nonce: the counter moves on by one with each chunk and comes back to a
/// value only after 65536 chunks.
pub proof fn lemma_nonces_do_not_repeat(iv: Seq<u8>, start: u16, i: nat, j: nat)
    requires
        i < j < 0x1_0000,
    ensures
        count_after(start, i) != count_after(start, j),
        chunk_nonce(iv, count_after(start, i)) != chunk_nonce(iv, count_after(start, j)),
{
    lemma_count_after_is_modular(start, i);
    lemma_count_after_is_modular(start, j);
    lemma_nonce_tells_counters_apart(iv, count_after(start, i), count_after(start, j));
}

/// A length below 65536 is read back from its two bytes.
pub proof fn lemma_be16_round_trip(n: int)
    requires
        0 <= n < 0x1_0000,
    ensures
        be16(n).len() == 2,
        be16_value(be16(n)[0], be16(n)[1]) == n,
{
}

/// Each piece of plaintext fits one chunk and is not empty.
pub open spec fn fits_chunks(chunks: Seq<Seq<u8>>) -> bool {
    forall|i: int| 0 <= i < chunks.len() ==> 0 < (#[trigger] chunks[i]).len() <= MAX_CHUNK_PLAINTEXT
}

/// The writer once the transport has taken all that is pending.
pub open spec fn drained(w: WriterState) -> WriterState {
    advanced(w, w.pending.len())
}

/// All that a writer hands to the transport when it is given each of
/// `chunks` in turn and then shut down, the transport taking everything
/// each time.
pub open spec fn emitted(w: WriterState, chunks: Seq<Seq<u8>>) -> Seq<u8>
    decreases chunks.len(),
{
    if chunks.len() == 0 {
        shut_down(w).pending
    } else {
        written(w, chunks.first()).pending + emitted(
            drained(written(w, chunks.first())),
            chunks.drop_first(),
        )
    }
}

/// What a reader makes of a stream that arrives in the pieces `pieces`, one
/// after the other: its state after the last, what the last attempt
/// reported, and all the plaintext given out.
pub open spec fn read_pieces(s: ReaderState, pieces: Seq<Seq<u8>>) -> ReadStep
    decreases pieces.len(),
{
    if pieces.len() == 0 {
        read_run(s)
    } else {
        let first = read_run(fed(s, pieces.first()));
        let rest = read_pieces(first.state, pieces.drop_first());
        ReadStep {
            state: rest.state,
            result: rest.result,
            plaintext: first.plaintext + rest.plaintext,
        }
    }
}

/// The plaintext of chunk `i` of a stream made of `chunks`: the piece with
/// that number, and nothing for the chunk that ends the stream.
pub open spec fn plaintext_at(chunks: Seq<Seq<u8>>, i: int) -> Seq<u8> {
    if 0 <= i < chunks.len() {
        chunks[i]
    } else {
        Seq::empty()
    }
}

/// Every chunk of a stream made of `chunks` can be read back, the chunk
/// that ends it too: what a writer states of each chunk as it seals it,
/// said of all of them.
pub open spec fn stream_opens(
    security: VmessSecurity,
    iv: Seq<u8>,
    start: u16,
    chunks: Seq<Seq<u8>>,
) -> bool {
    forall|i: int|
        0 <= i <= chunks.len() ==> chunk_opens(
            security,
            iv,
            count_after(start, i as nat),
            #[trigger] plaintext_at(chunks, i),
        )
}

/// The frames of a stream whose first chunk has the counter `start`: chunk
/// `i` is sealed under the nonce of the counter `i` chunks after `start`.
pub open spec fn frames(
    security: VmessSecurity,
    iv: Seq<u8>,
    start: u16,
    chunks: Seq<Seq<u8>>,
) -> Seq<Seq<u8>> {
    Seq::new(
        chunks.len() + 1,
        |i: int| chunk_frame(security, iv, count_after(start, i as nat), plaintext_at(chunks, i)),
    )
}

/// What a writer emits is its frames one after the other, each chunk
/// under the nonce of its own counter. With [`lemma_nonces_do_not_repeat`]:
/// no two of the first 65536 chunks are sealed under the same nonce.
pub proof fn lemma_stream_is_its_frames(w: WriterState, chunks: Seq<Seq<u8>>)
    requires
        w.phase is Ready,
        fits_chunks(chunks),
    ensures
        emitted(w, chunks) == frames(w.security, w.iv, w.count, chunks).flatten(),
    decreases chunks.len(),
{
    let all = frames(w.security, w.iv, w.count, chunks);
    assert(all.first() == chunk_frame(w.security, w.iv, w.count, plaintext_at(chunks, 0)));
    if chunks.len() == 0 {
        assert(all.drop_first() =~= Seq::<Seq<u8>>::empty());
        assert(all.drop_first().flatten() =~= Seq::<u8>::empty());
        assert(all.flatten() =~= all.first() + all.drop_first().flatten());
        assert(all.flatten() =~= all.first());
    } else {
        let data = chunks.first();
        let rest = chunks.drop_first();
        assert(0 < data.len() <= MAX_CHUNK_PLAINTEXT) by {
            assert(chunks[0] == data);
        }
        assert(fits_chunks(rest)) by {
            assert forall|i: int| 0 <= i < rest.len() implies 0 < (#[trigger] rest[i]).len()
                <= MAX_CHUNK_PLAINTEXT by {
                assert(rest[i] == chunks[i + 1]);
            }
        }
        assert(data.take(data.len() as int) =~= data);
        let sent = written(w, data);
        let next = drained(sent);
        assert(sent.pending == all.first());
        lemma_stream_is_its_frames(next, rest);
        let others = frames(w.security, w.iv, next_count(w.count), rest);
        assert(all.drop_first() =~= others) by {
            assert forall|i: int| 0 <= i < others.len() implies all.drop_first()[i]
                == others[i] by {
                lemma_count_after_shifts(w.count, i as nat);
                assert(plaintext_at(chunks, i + 1) == plaintext_at(rest, i));
            }
        }
        assert(all.flatten() =~= all.first() + all.drop_first().flatten());
    }
}

/// A run ends with a wait, the end of the stream or an error: it goes on
/// for as long as chunks are opened.
pub proof fn lemma_run_ends_without_data(s: ReaderState)
    ensures
        !(read_run(s).result matches Ok(ReadEvent::Data(_))),
    decreases s.buffer.len(),
{
    lemma_read_run_unfolds(s);
    if read_step(s).result matches Ok(ReadEvent::Data(_)) {
        lemma_run_ends_without_data(read_step(s).state);
    }
}

/// How one attempt to read goes when more bytes are there than it had:
/// an attempt that opened a chunk, or found the end, does the same and
/// leaves the further bytes behind; one that waited goes as it would go
/// from where the wait left the reader; one that failed fails alike.
pub proof fn lemma_read_step_extended(s: ReaderState, more: Seq<u8>)
    ensures
        match read_step(s).result {
            Ok(ReadEvent::NeedMore(_)) => read_step(fed(s, more)) == read_step(
                fed(read_step(s).state, more),
            ),
            Ok(_) => read_step(fed(s, more)) == (ReadStep {
                state: fed(read_step(s).state, more),
                ..read_step(s)
            }),
            Err(e) => {
                &&& read_step(fed(s, more)).result == Err::<ReadEvent, _>(e)
                &&& read_step(fed(s, more)).plaintext == Seq::<u8>::empty()
                &&& read_step(s).plaintext == Seq::<u8>::empty()
                &&& read_step(fed(s, more)).state.phase == ReadPhase::Failed(e)
                &&& read_step(s).state.phase == ReadPhase::Failed(e)
            },
        },
        read_step(s).result is Ok && read_step(s).result->Ok_0 is End ==> read_step(s).state.phase
            is Done && read_step(s).plaintext == Seq::<u8>::empty(),
        read_step(s).result is Ok && read_step(s).result->Ok_0 is NeedMore ==> read_step(
            s,
        ).plaintext == Seq::<u8>::empty(),
{
    match s.phase {
        ReadPhase::Done => {},
        ReadPhase::Failed(_) => {},
        ReadPhase::AwaitingPayload => {
            lemma_read_payload_extended(s, more);
        },
        ReadPhase::AwaitingLength => {
            if s.buffer.len() >= 2 {
                let known = ReaderState {
                    phase: ReadPhase::AwaitingPayload,
                    data_length: be16_value(s.buffer[0], s.buffer[1]) as usize,
                    buffer: s.buffer.skip(2),
                    ..s
                };
                assert((s.buffer + more).skip(2) =~= s.buffer.skip(2) + more);
                assert(read_step(s) == read_payload(known));
                assert(read_step(fed(s, more)) == read_payload(fed(known, more)));
                lemma_read_payload_extended(known, more);
                if read_payload(known).result matches Ok(ReadEvent::NeedMore(_)) {
                    assert(read_step(known) == read_payload(known));
                    assert(read_step(fed(known, more)) == read_payload(fed(known, more)));
                }
            } else {
                assert(read_step(s).state == s);
            }
        },
    }
}

proof fn lemma_read_payload_extended(s: ReaderState, more: Seq<u8>)
    requires
        s.phase is AwaitingPayload,
    ensures
        match read_payload(s).result {
            Ok(ReadEvent::NeedMore(_)) => read_payload(s).state == s && read_payload(s).plaintext
                == Seq::<u8>::empty(),
            Ok(ReadEvent::End) => read_payload(fed(s, more)) == (ReadStep {
                state: fed(read_payload(s).state, more),
                ..read_payload(s)
            }) && read_payload(s).state.phase is Done && read_payload(s).plaintext == Seq::<
                u8,
            >::empty(),
            Ok(_) => read_payload(fed(s, more)) == (ReadStep {
                state: fed(read_payload(s).state, more),
                ..read_payload(s)
            }),
            Err(e) => {
                &&& read_payload(fed(s, more)).result == Err::<ReadEvent, _>(e)
                &&& read_payload(fed(s, more)).plaintext == Seq::<u8>::empty()
                &&& read_payload(s).plaintext == Seq::<u8>::empty()
                &&& read_payload(fed(s, more)).state.phase == ReadPhase::Failed(e)
                &&& read_payload(s).state.phase == ReadPhase::Failed(e)
            },
        },
{
    if s.data_length >= TAG_LEN && s.buffer.len() >= s.data_length {
        let n = s.data_length as int;
        assert((s.buffer + more).take(n) =~= s.buffer.take(n));
        assert((s.buffer + more).skip(n) =~= s.buffer.skip(n) + more);
    }
}

/// How a run goes when more bytes are there than it had: it gives out what
/// it gave out before, and then what a run gives out that starts where the
/// first ended and finds the further bytes. Where the first ended in a
/// wait, the reader is left in the same state either way.
pub proof fn lemma_read_run_extended(s: ReaderState, more: Seq<u8>)
    ensures
        read_run(fed(s, more)).result == read_run(fed(read_run(s).state, more)).result,
        read_run(fed(s, more)).plaintext == read_run(s).plaintext + read_run(
            fed(read_run(s).state, more),
        ).plaintext,
        read_run(s).result matches Ok(ReadEvent::NeedMore(_)) ==> read_run(fed(s, more)).state
            == read_run(fed(read_run(s).state, more)).state,
    decreases s.buffer.len(),
{
    let step = read_step(s);
    let whole = read_run(fed(s, more));
    let second = read_run(fed(read_run(s).state, more));
    lemma_read_step_extended(s, more);
    lemma_read_run_unfolds(s);
    lemma_read_run_unfolds(fed(s, more));
    match step.result {
        Ok(ReadEvent::Data(_)) => {
            lemma_read_run_extended(step.state, more);
            let tail = read_run(fed(step.state, more));
            assert(whole.plaintext =~= step.plaintext + tail.plaintext);
            assert(step.plaintext + (read_run(step.state).plaintext + second.plaintext) =~= (
            step.plaintext + read_run(step.state).plaintext) + second.plaintext);
        },
        Ok(ReadEvent::NeedMore(_)) => {
            lemma_read_run_unfolds(fed(step.state, more));
            assert(whole.plaintext =~= Seq::<u8>::empty() + second.plaintext);
        },
        Ok(ReadEvent::End) => {
            lemma_read_run_unfolds(fed(step.state, more));
            assert(whole.plaintext =~= Seq::<u8>::empty() + second.plaintext);
        },
        Err(_) => {
            lemma_read_run_unfolds(fed(step.state, more));
            assert(whole.plaintext =~= Seq::<u8>::empty() + second.plaintext);
        },
    }
}

/// A reader that stands where the writer `w` stands: it has the same
/// cipher, IV and counter, waits for a length, and holds nothing.
pub open spec fn reader_at(w: WriterState) -> ReaderState {
    ReaderState {
        security: w.security,
        iv: w.iv,
        count: w.count,
        phase: ReadPhase::AwaitingLength,
        data_length: 0,
        buffer: Seq::empty(),
    }
}

/// The writer after it was offered what is left of `data` until it had
/// taken all of it, and was then shut down, the transport having taken
/// everything.
pub open spec fn sent_all(w: WriterState, data: Seq<u8>) -> WriterState
    decreases data.len(),
{
    if data.len() == 0 || accepted_len(w, data.len()) == 0 {
        drained(shut_down(w))
    } else {
        sent_all(drained(written(w, data)), data.skip(accepted_len(w, data.len()) as int))
    }
}

/// A reader that holds exactly one frame, which opens to `data` under the
/// nonce of the reader's counter, gives out `data` and then waits for the
/// next length; where `data` is empty it reports the end instead.
pub proof fn lemma_frame_reads(r: ReaderState, data: Seq<u8>)
    requires
        r.phase is AwaitingLength,
        data.len() <= MAX_CHUNK_PLAINTEXT,
        r.buffer.len() == data.len() + 2 + TAG_LEN,
        r.buffer.take(2) == be16(data.len() + TAG_LEN),
        r.security.opened(chunk_nonce(r.iv, r.count), Seq::empty(), r.buffer.skip(2)) == Some(
            data,
        ),
    ensures
        read_run(r).plaintext == data,
        read_run(r).state == (ReaderState {
            count: next_count(r.count),
            phase: if data.len() == 0 {
                ReadPhase::Done
            } else {
                ReadPhase::AwaitingLength
            },
            data_length: (data.len() + TAG_LEN) as usize,
            buffer: Seq::empty(),
            ..r
        }),
        read_run(r).result == (if data.len() == 0 {
            Ok::<_, crate::aead::ReadError>(ReadEvent::End)
        } else {
            Ok(ReadEvent::NeedMore(2))
        }),
{
    let n = data.len() + TAG_LEN;
    lemma_be16_round_trip(n as int);
    assert(r.buffer[0] == r.buffer.take(2)[0] && r.buffer[1] == r.buffer.take(2)[1]);
    let body = r.buffer.skip(2);
    assert(body.take(n as int) =~= body);
    assert(body.skip(n as int) =~= Seq::<u8>::empty());
    lemma_read_run_unfolds(r);
    let step = read_step(r);
    lemma_read_run_unfolds(step.state);
    if data.len() == 0 {
        assert(step.plaintext =~= data);
    } else {
        assert(read_run(r).plaintext =~= data + Seq::<u8>::empty());
    }
}

/// The pieces in which a stream arrives do not matter: a reader that is
/// fed them one after the other gives out the same plaintext, and ends
/// with the same report, as one that is fed all of it at once.
pub proof fn lemma_pieces_do_not_matter(s: ReaderState, pieces: Seq<Seq<u8>>)
    ensures
        read_pieces(s, pieces).result == read_run(fed(s, pieces.flatten())).result,
        read_pieces(s, pieces).plaintext == read_run(fed(s, pieces.flatten())).plaintext,
    decreases pieces.len(),
{
    if pieces.len() == 0 {
        assert(pieces.flatten() =~= Seq::<u8>::empty());
        assert(fed(s, pieces.flatten()).buffer =~= s.buffer);
        assert(fed(s, pieces.flatten()) == s);
    } else {
        let head = pieces.first();
        let tail = pieces.drop_first().flatten();
        let first = read_run(fed(s, head));
        lemma_pieces_do_not_matter(first.state, pieces.drop_first());
        lemma_read_run_extended(fed(s, head), tail);
        assert(pieces.flatten() =~= head + tail);
        assert(fed(fed(s, head), tail).buffer =~= s.buffer + (head + tail));
        assert(fed(fed(s, head), tail) == fed(s, pieces.flatten()));
    }
}

/// A reader that has seen the end stays there: whatever arrives, it reports
/// the end again, gives out nothing and opens nothing.
pub proof fn lemma_end_is_final(s: ReaderState, more: Seq<u8>)
    requires
        s.phase is Done,
    ensures
        read_run(fed(s, more)) == (ReadStep {
            state: fed(s, more),
            result: Ok(ReadEvent::End),
            plaintext: Seq::empty(),
        }),
{
    lemma_read_run_unfolds(fed(s, more));
}

/// A reader that gave a stream up stays there: whatever arrives, it reports
/// the same error and gives out nothing.
pub proof fn lemma_failure_is_final(s: ReaderState, more: Seq<u8>)
    requires
        s.phase is Failed,
    ensures
        read_run(fed(s, more)) == (ReadStep {
            state: fed(s, more),
            result: Err(s.phase->Failed_0),
            plaintext: Seq::empty(),
        }),
{
    lemma_read_run_unfolds(fed(s, more));
}

/// A chunk that does not authenticate ends the stream: the attempt reports
/// the failure, gives out nothing, and drops what had arrived.
pub proof fn lemma_forgery_gives_nothing(s: ReaderState)
    requires
        s.phase is AwaitingPayload,
        s.data_length >= TAG_LEN,
        s.buffer.len() >= s.data_length,
        s.security.opened(
            chunk_nonce(s.iv, s.count),
            Seq::empty(),
            s.buffer.take(s.data_length as int),
        ) is None,
    ensures
        read_step(s).result == Err::<ReadEvent, _>(crate::aead::ReadError::AuthenticationFailed),
        read_step(s).plaintext == Seq::<u8>::empty(),
        read_step(s).state.buffer == Seq::<u8>::empty(),
        read_step(s).state.count == s.count,
        read_run(s) == read_step(s),
{
    lemma_read_run_unfolds(s);
}

/// A frame whose tag does not authenticate what comes with it ends the
/// stream, whatever was changed in it: the reader reports the failure,
/// gives out nothing of the chunk, keeps nothing of what had arrived, and
/// reports the same failure from then on.
pub proof fn lemma_tampered_chunk_fails(r: ReaderState, body: Seq<u8>, behind: Seq<u8>)
    requires
        r.phase is AwaitingLength,
        TAG_LEN <= body.len() < 0x1_0000,
        r.buffer == be16(body.len() as int) + body + behind,
        r.security.opened(chunk_nonce(r.iv, r.count), Seq::empty(), body) is None,
    ensures
        read_run(r).result == Err::<ReadEvent, _>(crate::aead::ReadError::AuthenticationFailed),
        read_run(r).plaintext == Seq::<u8>::empty(),
        read_run(r).state.buffer == Seq::<u8>::empty(),
        read_run(r).state.phase == ReadPhase::Failed(
            crate::aead::ReadError::AuthenticationFailed,
        ),
        read_run(r).state.count == r.count,
{
    let n = body.len() as int;
    lemma_be16_round_trip(n);
    lemma_read_run_unfolds(r);
    assert(r.buffer[0] == be16(n)[0] && r.buffer[1] == be16(n)[1]);
    assert(r.buffer.skip(2) =~= body + behind);
    assert((body + behind).take(n) =~= body);
}

/// A stream without plaintext is one chunk: two bytes that say 16, then
/// the tag of the empty message.
pub proof fn lemma_empty_stream_is_one_chunk(w: WriterState)
    requires
        w.phase is Ready,
    ensures
        emitted(w, Seq::empty()) == chunk_frame(w.security, w.iv, w.count, Seq::empty()),
        emitted(w, Seq::empty()).subrange(0, 2) == seq![0u8, 16u8],
        emitted(w, Seq::empty()).skip(2) == w.security.sealed(
            chunk_nonce(w.iv, w.count),
            Seq::empty(),
            Seq::empty(),
        ),
        chunk_opens(w.security, w.iv, w.count, Seq::empty()) ==> emitted(w, Seq::empty()).len()
            == 2 + TAG_LEN,
{
    let frame = chunk_frame(w.security, w.iv, w.count, Seq::empty());
    let sealed = w.security.sealed(chunk_nonce(w.iv, w.count), Seq::empty(), Seq::empty());
    assert(frame.subrange(0, 2) =~= seq![0u8, 16u8]);
    assert(frame.skip(2) =~= sealed);
}

/// A reader opens the chunks that a writer with the same cipher, IV and
/// counter sealed, and finds the end behind them: it gives out the plaintext
/// that the writer was given, in order, reports the end, and leaves behind
/// what followed the stream.
pub proof fn lemma_reads_what_was_written(
    w: WriterState,
    r: ReaderState,
    chunks: Seq<Seq<u8>>,
    behind: Seq<u8>,
)
    requires
        stream_opens(w.security, w.iv, w.count, chunks),
        fits_chunks(chunks),
        w.phase is Ready,
        r.phase is AwaitingLength,
        r.security == w.security,
        r.iv == w.iv,
        r.count == w.count,
        r.buffer == emitted(w, chunks) + behind,
    ensures
        read_run(r).result == Ok::<_, crate::aead::ReadError>(ReadEvent::End),
        read_run(r).plaintext == chunks.flatten(),
        read_run(r).state.phase is Done,
        read_run(r).state.buffer == behind,
        read_run(r).state.count == count_after(w.count, chunks.len() + 1),
    decreases chunks.len(),
{
    let nonce = chunk_nonce(w.iv, w.count);
    lemma_read_run_unfolds(r);
    assert(chunk_opens(w.security, w.iv, w.count, plaintext_at(chunks, 0))) by {
        assert(count_after(w.count, 0) == w.count);
    }
    if chunks.len() == 0 {
        let sealed = w.security.sealed(nonce, Seq::empty(), Seq::empty());
        let frame = chunk_frame(w.security, w.iv, w.count, Seq::empty());
        assert(emitted(w, chunks) == frame);
        assert(frame.skip(2) =~= sealed);
        assert(sealed.len() == TAG_LEN);
        lemma_be16_round_trip(TAG_LEN as int);
        assert(r.buffer[0] == be16(TAG_LEN as int)[0] && r.buffer[1] == be16(TAG_LEN as int)[1]);
        assert(r.buffer.skip(2) =~= sealed + behind);
        assert((sealed + behind).take(TAG_LEN as int) =~= sealed);
        assert((sealed + behind).skip(TAG_LEN as int) =~= behind);
        assert(chunks.flatten() =~= Seq::<u8>::empty());
        assert(count_after(w.count, 1) == next_count(count_after(w.count, 0)));
    } else {
        let data = chunks.first();
        let rest = chunks.drop_first();
        assert(0 < data.len() <= MAX_CHUNK_PLAINTEXT) by {
            assert(chunks[0] == data);
        }
        assert(fits_chunks(rest)) by {
            assert forall|i: int| 0 <= i < rest.len() implies 0 < (#[trigger] rest[i]).len()
                <= MAX_CHUNK_PLAINTEXT by {
                assert(rest[i] == chunks[i + 1]);
            }
        }
        assert(accepted_len(w, data.len()) == data.len());
        assert(data.take(data.len() as int) =~= data);
        let sent = written(w, data);
        assert(sent == chunk_sealed(w, data, WritePhase::Sending));
        let sealed = w.security.sealed(nonce, Seq::empty(), data);
        let n = data.len() + TAG_LEN;
        assert(chunk_frame(w.security, w.iv, w.count, data).skip(2) =~= sealed);
        assert(sealed.len() == n);
        assert(stream_opens(w.security, w.iv, next_count(w.count), rest)) by {
            assert forall|i: int| 0 <= i <= rest.len() implies chunk_opens(
                w.security,
                w.iv,
                count_after(next_count(w.count), i as nat),
                #[trigger] plaintext_at(rest, i),
            ) by {
                lemma_count_after_shifts(w.count, i as nat);
                assert(plaintext_at(chunks, i + 1) == plaintext_at(rest, i));
            }
        }
        assert(sent.pending == be16(n as int) + sealed);
        let next = drained(sent);
        assert(next.phase is Ready && next.count == next_count(w.count) && next.iv == w.iv
            && next.security == w.security);
        let after = emitted(next, rest);
        assert(emitted(w, chunks) == sent.pending + after);
        lemma_be16_round_trip(n as int);
        assert(r.buffer[0] == be16(n as int)[0] && r.buffer[1] == be16(n as int)[1]);
        assert(r.buffer.skip(2) =~= sealed + (after + behind));
        assert((sealed + (after + behind)).take(n as int) =~= sealed);
        assert((sealed + (after + behind)).skip(n as int) =~= after + behind);
        let step = read_step(r);
        assert(step.result == Ok::<_, crate::aead::ReadError>(ReadEvent::Data(data.len() as usize)));
        assert(step.plaintext == data);
        assert(step.state.buffer == after + behind);
        lemma_reads_what_was_written(next, step.state, rest, behind);
        assert(chunks.flatten() =~= data + rest.flatten());
        lemma_count_after_shifts(w.count, rest.len() + 1);
    }
}

proof fn lemma_count_after_shifts(start: u16, chunks: nat)
    ensures
        count_after(next_count(start), chunks) == count_after(start, chunks + 1),
    decreases chunks,
{
    assert(count_after(start, chunks + 1) == next_count(count_after(start, chunks)));
    if chunks > 0 {
        lemma_count_after_shifts(start, (chunks - 1) as nat);
    } else {
        assert(count_after(start, 0) == start);
    }
}

/// Writing, then reading: a reader that starts where the writer started
/// gives out exactly the plaintext that the writer was given, and reports
/// the end, however the stream is cut into pieces on its way.
pub proof fn lemma_round_trip(
    w: WriterState,
    r: ReaderState,
    chunks: Seq<Seq<u8>>,
    pieces: Seq<Seq<u8>>,
)
    requires
        stream_opens(w.security, w.iv, w.count, chunks),
        fits_chunks(chunks),
        w.phase is Ready,
        r.phase is AwaitingLength,
        r.buffer.len() == 0,
        r.security == w.security,
        r.iv == w.iv,
        r.count == w.count,
        pieces.flatten() == emitted(w, chunks),
    ensures
        read_pieces(r, pieces).result == Ok::<_, crate::aead::ReadError>(ReadEvent::End),
        read_pieces(r, pieces).plaintext == chunks.flatten(),
{
    lemma_pieces_do_not_matter(r, pieces);
    let whole = fed(r, pieces.flatten());
    assert(whole.buffer =~= emitted(w, chunks) + Seq::<u8>::empty());
    lemma_reads_what_was_written(w, whole, chunks, Seq::empty());
}

/// `data` cut into the pieces that a writer takes it in: each as long as
/// one chunk carries, but for the last.
pub open spec fn cut(data: Seq<u8>) -> Seq<Seq<u8>>
    decreases data.len(),
{
    if data.len() == 0 {
        Seq::empty()
    } else if data.len() <= MAX_CHUNK_PLAINTEXT {
        seq![data]
    } else {
        seq![data.take(MAX_CHUNK_PLAINTEXT as int)] + cut(data.skip(MAX_CHUNK_PLAINTEXT as int))
    }
}

/// All that a writer hands to the transport when it is offered what is
/// left of `data` until it has taken all of it, and is then shut down, the
/// transport taking everything each time.
pub open spec fn sent(w: WriterState, data: Seq<u8>) -> Seq<u8>
    decreases data.len(),
{
    if data.len() == 0 || accepted_len(w, data.len()) == 0 {
        shut_down(w).pending
    } else {
        written(w, data).pending + sent(
            drained(written(w, data)),
            data.skip(accepted_len(w, data.len()) as int),
        )
    }
}

/// The pieces that a plaintext is cut into fit their chunks, and make up
/// the plaintext.
pub proof fn lemma_cut_fits(data: Seq<u8>)
    ensures
        fits_chunks(cut(data)),
        cut(data).flatten() == data,
    decreases data.len(),
{
    let max = MAX_CHUNK_PLAINTEXT as int;
    if data.len() == 0 {
        assert(cut(data).flatten() =~= data);
    } else if data.len() <= MAX_CHUNK_PLAINTEXT {
        assert(cut(data).drop_first() =~= Seq::<Seq<u8>>::empty());
        assert(cut(data).flatten() =~= cut(data).first() + cut(data).drop_first().flatten());
        assert(cut(data).drop_first().flatten() =~= Seq::<u8>::empty());
        assert(cut(data).flatten() =~= data);
    } else {
        lemma_cut_fits(data.skip(max));
        let rest = cut(data.skip(max));
        assert(cut(data).first() == data.take(max));
        assert(cut(data).drop_first() =~= rest);
        assert(cut(data).flatten() =~= cut(data).first() + cut(data).drop_first().flatten());
        assert(data.take(max) + data.skip(max) =~= data);
        assert forall|i: int| 0 <= i < cut(data).len() implies 0 < (#[trigger] cut(data)[i]).len()
            <= MAX_CHUNK_PLAINTEXT by {
            if i > 0 {
                assert(cut(data)[i] == rest[i - 1]);
            }
        }
    }
}

/// A writer that is offered a plaintext until it has taken all of it seals
/// the pieces that the plaintext is cut into.
pub proof fn lemma_sent_is_emitted(w: WriterState, data: Seq<u8>)
    requires
        w.phase is Ready,
    ensures
        sent(w, data) == emitted(w, cut(data)),
    decreases data.len(),
{
    let max = MAX_CHUNK_PLAINTEXT as int;
    if data.len() == 0 {
    } else if data.len() <= MAX_CHUNK_PLAINTEXT {
        assert(data.take(data.len() as int) =~= data);
        assert(data.skip(data.len() as int) =~= Seq::<u8>::empty());
        assert(cut(data).first() == data);
        assert(cut(data).drop_first() =~= Seq::<Seq<u8>>::empty());
        let next = drained(written(w, data));
        assert(sent(next, Seq::empty()) == shut_down(next).pending);
        assert(emitted(next, Seq::empty()) == shut_down(next).pending);
    } else {
        let head = data.take(max);
        assert(head.take(max) =~= head);
        assert(written(w, data) == written(w, head));
        assert(cut(data).first() == head);
        assert(cut(data).drop_first() =~= cut(data.skip(max)));
        lemma_sent_is_emitted(drained(written(w, data)), data.skip(max));
    }
}

/// The chunk that ends a stream reads as the end, with no plaintext.
pub proof fn lemma_terminal_chunk_reads_as_end(w: WriterState, r: ReaderState)
    requires
        chunk_opens(w.security, w.iv, w.count, Seq::empty()),
        w.phase is Ready,
        r.phase is AwaitingLength,
        r.security == w.security,
        r.iv == w.iv,
        r.count == w.count,
        r.buffer == shut_down(w).pending,
    ensures
        read_run(r).result == Ok::<_, crate::aead::ReadError>(ReadEvent::End),
        read_run(r).plaintext == Seq::<u8>::empty(),
        read_run(r).state.phase is Done,
{
    assert(r.buffer =~= emitted(w, Seq::empty()) + Seq::<u8>::empty());
    assert(count_after(w.count, 0) == w.count);
    assert(stream_opens(w.security, w.iv, w.count, Seq::empty()));
    lemma_reads_what_was_written(w, r, Seq::empty(), Seq::empty());
    assert(Seq::<Seq<u8>>::empty().flatten() =~= Seq::<u8>::empty());
}

/// Writing, then reading: a reader that starts where the writer started
/// gives out exactly the plaintext that the writer took, and then reports
/// the end, however long the plaintext is and however the stream is cut
/// into pieces on its way.
pub proof fn lemma_plaintext_round_trip(
    w: WriterState,
    r: ReaderState,
    data: Seq<u8>,
    pieces: Seq<Seq<u8>>,
)
    requires
        stream_opens(w.security, w.iv, w.count, cut(data)),
        w.phase is Ready,
        r.phase is AwaitingLength,
        r.buffer.len() == 0,
        r.security == w.security,
        r.iv == w.iv,
        r.count == w.count,
        pieces.flatten() == sent(w, data),
    ensures
        read_pieces(r, pieces).result == Ok::<_, crate::aead::ReadError>(ReadEvent::End),
        read_pieces(r, pieces).plaintext == data,
{
    lemma_cut_fits(data);
    lemma_sent_is_emitted(w, data);
    lemma_round_trip(w, r, cut(data), pieces);
}

} // verus!
