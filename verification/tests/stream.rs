use aes_gcm::aead::{AeadInPlace, KeyInit};
use bytes::BytesMut;
use vmess::aead::{
    ReadError, ReadEvent, ReadPhase, VmessAeadReader, VmessAeadWriter, VmessSecurity, WritePhase,
    MAX_CHUNK_PLAINTEXT,
};
use vmess::aead_helper::{AeadCipherHelper, Aes128Gcm, ChaCha20Poly1305};

fn unhex(s: &str) -> Vec<u8> {
    (0..s.len() / 2).map(|i| u8::from_str_radix(&s[2 * i..2 * i + 2], 16).unwrap()).collect()
}

fn iv() -> Vec<u8> {
    (0xa0..0xb0u8).collect()
}

fn aes() -> VmessSecurity {
    let key: Vec<u8> = (0..16u8).collect();
    VmessSecurity::Aes128Gcm(Aes128Gcm::new_with_slice(&key))
}

fn chacha() -> VmessSecurity {
    let key: Vec<u8> = (0..32u8).collect();
    VmessSecurity::ChaCha20Poly1305(ChaCha20Poly1305::new_with_slice(&key))
}

/// Seals `data` chunk by chunk, lets the transport take everything, and
/// ends the stream. Returns the frames.
fn frames_of(writer: &mut VmessAeadWriter, data: &[u8]) -> Vec<Vec<u8>> {
    let mut frames = Vec::new();
    let mut rest = data;
    while !rest.is_empty() {
        let taken = writer.write(rest);
        assert!(taken > 0);
        rest = &rest[taken..];
        frames.push(writer.pending().to_vec());
        writer.advance(usize::MAX);
    }
    assert!(writer.shutdown());
    frames.push(writer.pending().to_vec());
    writer.advance(usize::MAX);
    frames
}

fn pattern(len: usize) -> Vec<u8> {
    (0..len).map(|i| (i * 31 + 7) as u8).collect()
}

#[test]
fn aes_frames_are_bit_exact() {
    let mut writer = VmessAeadWriter::new(&iv(), aes());
    assert_eq!(writer.write(b"hello"), 5);
    assert_eq!(writer.pending(), &unhex("00154bd924e14452a0337cfd7a07a945560bd4904215d1")[..]);
    writer.advance(23);
    assert_eq!(writer.write(b"world!"), 6);
    assert_eq!(writer.pending(), &unhex("0016af093509b2932462eae73834dffafc2c10924eaac4e4")[..]);
    writer.advance(24);
    assert!(writer.shutdown());
    assert_eq!(writer.pending(), &unhex("00104f14281f221f5e1d4577ba1e35688aa3")[..]);
}

#[test]
fn chacha_frames_are_bit_exact() {
    let mut writer = VmessAeadWriter::new(&iv(), chacha());
    assert_eq!(writer.write(b"hello"), 5);
    assert_eq!(writer.pending(), &unhex("001529f073dcce62b5b48757550d6ab40ca2200fef770e")[..]);
    writer.advance(23);
    assert!(writer.shutdown());
    assert_eq!(writer.pending(), &unhex("001003ae30f5c322cdbaad9b29db21249a07")[..]);
}

#[test]
fn reader_opens_known_frames() {
    let mut reader = VmessAeadReader::new(&iv(), aes());
    let mut out = Vec::new();
    let mut wire = unhex("00154bd924e14452a0337cfd7a07a945560bd4904215d1");
    wire.extend_from_slice(&unhex("0016af093509b2932462eae73834dffafc2c10924eaac4e4"));
    wire.extend_from_slice(&unhex("00104f14281f221f5e1d4577ba1e35688aa3"));
    assert_eq!(reader.read(&wire, &mut out), Ok(ReadEvent::End));
    assert_eq!(out, b"helloworld!");
}

#[test]
fn stream_without_plaintext_is_one_terminal_chunk() {
    let mut writer = VmessAeadWriter::new(&iv(), aes());
    assert!(writer.shutdown());
    let frame = writer.pending().to_vec();
    assert_eq!(frame.len(), 18);
    assert_eq!(&frame[..2], &[0, 16]);
    assert_eq!(frame, unhex("00105a1de8fda71234d169b8e72ed83270b2"));
    assert_eq!(writer.phase(), WritePhase::Closing);
    writer.advance(18);
    assert_eq!(writer.phase(), WritePhase::Closed);
    assert!(writer.pending().is_empty());
    assert!(!writer.shutdown());
    assert!(writer.pending().is_empty());

    let mut reader = VmessAeadReader::new(&iv(), aes());
    let mut out = Vec::new();
    assert_eq!(reader.read(&frame, &mut out), Ok(ReadEvent::End));
    assert!(out.is_empty());
    assert_eq!(reader.phase(), ReadPhase::Done);
}

#[test]
fn reading_past_the_end_reports_the_end_again() {
    let mut writer = VmessAeadWriter::new(&iv(), chacha());
    let frames = frames_of(&mut writer, b"last words");
    let mut reader = VmessAeadReader::new(&iv(), chacha());
    let mut out = Vec::new();
    assert_eq!(reader.read(&frames.concat(), &mut out), Ok(ReadEvent::End));
    assert_eq!(out, b"last words");
    assert_eq!(reader.poll(&mut out), Ok(ReadEvent::End));
    assert_eq!(reader.read(&[], &mut out), Ok(ReadEvent::End));
    assert_eq!(reader.read(b"whatever follows", &mut out), Ok(ReadEvent::End));
    assert_eq!(out, b"last words");
    assert_eq!(reader.phase(), ReadPhase::Done);
}

#[test]
fn bytes_behind_the_end_are_kept() {
    let mut writer = VmessAeadWriter::new(&iv(), aes());
    let mut wire = frames_of(&mut writer, b"abc").concat();
    wire.extend_from_slice(b"next");
    let mut reader = VmessAeadReader::new(&iv(), aes());
    let mut out = Vec::new();
    assert_eq!(reader.read(&wire, &mut out), Ok(ReadEvent::End));
    assert_eq!(out, b"abc");
    let held = reader.replace_buffer(BytesMut::new());
    assert_eq!(&held[..], b"next");
}

#[test]
fn round_trip_for_every_length_up_to_300() {
    for len in 0..=300usize {
        let data = pattern(len);
        let mut writer = VmessAeadWriter::new(&iv(), aes());
        let wire = frames_of(&mut writer, &data).concat();
        let mut reader = VmessAeadReader::new(&iv(), aes());
        let mut out = Vec::new();
        assert_eq!(reader.read(&wire, &mut out), Ok(ReadEvent::End));
        assert_eq!(out, data);
    }
}

#[test]
fn round_trip_byte_by_byte() {
    let data = pattern(1000);
    let mut writer = VmessAeadWriter::new(&iv(), chacha());
    let mut wire = Vec::new();
    for piece in data.chunks(333) {
        assert_eq!(writer.write(piece), piece.len());
        wire.extend_from_slice(writer.pending());
        writer.advance(usize::MAX);
    }
    assert!(writer.shutdown());
    wire.extend_from_slice(writer.pending());

    let mut reader = VmessAeadReader::new(&iv(), chacha());
    let mut out = Vec::new();
    for (i, byte) in wire.iter().enumerate() {
        let result = reader.read(&[*byte], &mut out);
        if i + 1 < wire.len() {
            assert!(matches!(result, Ok(ReadEvent::NeedMore(n)) if n > 0));
        } else {
            assert_eq!(result, Ok(ReadEvent::End));
        }
    }
    assert_eq!(out, data);
}

#[test]
fn round_trip_in_pieces_of_every_size() {
    let data = pattern(700);
    let mut writer = VmessAeadWriter::new(&iv(), aes());
    let mut wire = Vec::new();
    for piece in data.chunks(97) {
        assert_eq!(writer.write(piece), piece.len());
        wire.extend_from_slice(writer.pending());
        writer.advance(usize::MAX);
    }
    assert!(writer.shutdown());
    wire.extend_from_slice(writer.pending());

    for size in 1..=wire.len() {
        let mut reader = VmessAeadReader::new(&iv(), aes());
        let mut out = Vec::new();
        let mut last = Ok(ReadEvent::NeedMore(2));
        for piece in wire.chunks(size) {
            last = reader.read(piece, &mut out);
        }
        assert_eq!(last, Ok(ReadEvent::End));
        assert_eq!(out, data);
    }
}

#[test]
fn round_trip_in_uneven_pieces() {
    let data = pattern(5000);
    let mut writer = VmessAeadWriter::new(&iv(), chacha());
    let wire = frames_of(&mut writer, &data).concat();
    let mut reader = VmessAeadReader::new(&iv(), chacha());
    let mut out = Vec::new();
    let mut at = 0;
    let mut step = 1;
    let mut last = Ok(ReadEvent::NeedMore(2));
    while at < wire.len() {
        let end = (at + step).min(wire.len());
        last = reader.read(&wire[at..end], &mut out);
        at = end;
        step = step * 3 % 101 + 1;
    }
    assert_eq!(last, Ok(ReadEvent::End));
    assert_eq!(out, data);
}

#[test]
fn empty_deliveries_change_nothing() {
    let mut writer = VmessAeadWriter::new(&iv(), aes());
    let wire = frames_of(&mut writer, b"some data").concat();
    let mut reader = VmessAeadReader::new(&iv(), aes());
    let mut out = Vec::new();
    assert_eq!(reader.read(&[], &mut out), Ok(ReadEvent::NeedMore(2)));
    assert_eq!(reader.read(&wire[..1], &mut out), Ok(ReadEvent::NeedMore(1)));
    assert_eq!(reader.read(&[], &mut out), Ok(ReadEvent::NeedMore(1)));
    assert_eq!(reader.read(&wire[1..3], &mut out), Ok(ReadEvent::NeedMore(24)));
    assert_eq!(reader.phase(), ReadPhase::AwaitingPayload);
    assert_eq!(reader.read(&[], &mut out), Ok(ReadEvent::NeedMore(24)));
    assert_eq!(reader.read(&wire[3..26], &mut out), Ok(ReadEvent::NeedMore(1)));
    assert!(out.is_empty());
    assert_eq!(reader.read(&wire[26..], &mut out), Ok(ReadEvent::End));
    assert_eq!(out, b"some data");
}

#[test]
fn poll_opens_one_chunk_at_a_time() {
    let mut writer = VmessAeadWriter::new(&iv(), aes());
    let wire = frames_of(&mut writer, b"one").concat();
    let mut writer = VmessAeadWriter::new(&iv(), aes());
    writer.write(b"one");
    let first = writer.pending().to_vec();
    writer.advance(first.len());
    writer.write(b"three");
    let second = writer.pending().to_vec();
    assert_eq!(&wire[..first.len()], &first[..]);

    let mut reader = VmessAeadReader::new(&iv(), aes());
    reader.feed(&first);
    reader.feed(&second);
    let mut out = Vec::new();
    assert_eq!(reader.poll(&mut out), Ok(ReadEvent::Data(3)));
    assert_eq!(out, b"one");
    assert_eq!(reader.phase(), ReadPhase::AwaitingLength);
    assert_eq!(reader.poll(&mut out), Ok(ReadEvent::Data(5)));
    assert_eq!(out, b"onethree");
    assert_eq!(reader.poll(&mut out), Ok(ReadEvent::NeedMore(2)));
    assert_eq!(out, b"onethree");
}

#[test]
fn largest_chunk_round_trips() {
    let data = pattern(MAX_CHUNK_PLAINTEXT);
    let mut writer = VmessAeadWriter::new(&iv(), aes());
    assert_eq!(writer.write(&data), MAX_CHUNK_PLAINTEXT);
    let frame = writer.pending().to_vec();
    assert_eq!(frame.len(), MAX_CHUNK_PLAINTEXT + 18);
    assert_eq!(&frame[..2], &[0x40, 0x10]);
    let mut reader = VmessAeadReader::new(&iv(), aes());
    let mut out = Vec::new();
    assert_eq!(reader.read(&frame, &mut out), Ok(ReadEvent::NeedMore(2)));
    assert_eq!(out, data);
}

#[test]
fn write_takes_at_most_one_chunk() {
    let data = pattern(MAX_CHUNK_PLAINTEXT + 1000);
    let mut writer = VmessAeadWriter::new(&iv(), chacha());
    assert_eq!(MAX_CHUNK_PLAINTEXT, 16384);
    assert_eq!(writer.write(&data), MAX_CHUNK_PLAINTEXT);
    assert_eq!(writer.pending().len(), MAX_CHUNK_PLAINTEXT + 18);
    writer.advance(MAX_CHUNK_PLAINTEXT + 18);
    assert_eq!(writer.write(&data[MAX_CHUNK_PLAINTEXT..]), 1000);
    assert_eq!(writer.pending().len(), 1018);
}

#[test]
fn long_plaintext_round_trips_in_several_chunks() {
    let data = pattern(3 * MAX_CHUNK_PLAINTEXT + 5);
    let mut writer = VmessAeadWriter::new(&iv(), aes());
    let frames = frames_of(&mut writer, &data);
    assert_eq!(frames.len(), 5);
    let mut reader = VmessAeadReader::new(&iv(), aes());
    let mut out = Vec::new();
    assert_eq!(reader.read(&frames.concat(), &mut out), Ok(ReadEvent::End));
    assert_eq!(out, data);
}

#[test]
fn writer_takes_nothing_while_a_chunk_is_pending() {
    let mut writer = VmessAeadWriter::new(&iv(), aes());
    assert_eq!(writer.phase(), WritePhase::Ready);
    assert_eq!(writer.write(b"hello"), 5);
    assert_eq!(writer.phase(), WritePhase::Sending);
    let frame = writer.pending().to_vec();
    assert_eq!(writer.write(b"more"), 0);
    assert!(!writer.shutdown());
    assert_eq!(writer.pending(), &frame[..]);
    writer.advance(10);
    assert_eq!(writer.pending(), &frame[10..]);
    assert_eq!(writer.write(b"more"), 0);
    assert_eq!(writer.pending(), &frame[10..]);
    writer.advance(0);
    assert_eq!(writer.pending(), &frame[10..]);
    writer.advance(12);
    assert_eq!(writer.pending(), &frame[22..]);
    assert_eq!(writer.phase(), WritePhase::Sending);
    writer.advance(1);
    assert!(writer.pending().is_empty());
    assert_eq!(writer.phase(), WritePhase::Ready);
    assert_eq!(writer.write(b"more"), 4);
}

#[test]
fn writer_takes_no_empty_data() {
    let mut writer = VmessAeadWriter::new(&iv(), aes());
    assert_eq!(writer.write(&[]), 0);
    assert!(writer.pending().is_empty());
    assert_eq!(writer.phase(), WritePhase::Ready);
    assert_eq!(writer.write(b"hello"), 5);
    assert_eq!(writer.pending(), &unhex("00154bd924e14452a0337cfd7a07a945560bd4904215d1")[..]);
}

#[test]
fn writer_takes_nothing_after_the_end() {
    let mut writer = VmessAeadWriter::new(&iv(), aes());
    assert!(writer.shutdown());
    assert_eq!(writer.write(b"late"), 0);
    assert_eq!(writer.pending().len(), 18);
    writer.advance(17);
    assert_eq!(writer.phase(), WritePhase::Closing);
    assert_eq!(writer.write(b"late"), 0);
    writer.advance(1);
    assert_eq!(writer.phase(), WritePhase::Closed);
    assert_eq!(writer.write(b"late"), 0);
    assert!(!writer.shutdown());
    assert!(writer.pending().is_empty());
    writer.advance(5);
    assert_eq!(writer.phase(), WritePhase::Closed);
}

#[test]
fn each_chunk_is_sealed_under_the_nonce_of_its_counter() {
    let key: Vec<u8> = (0..16u8).collect();
    let primitive = aes_gcm::Aes128Gcm::new_from_slice(&key).unwrap();
    let mut writer = VmessAeadWriter::new(&iv(), aes());
    let mut nonces = Vec::new();
    for count in 0..600u16 {
        let data = [count as u8, (count >> 8) as u8, 0x55];
        assert_eq!(writer.write(&data), 3);
        let frame = writer.pending().to_vec();
        writer.advance(frame.len());

        let mut nonce = vec![(count >> 8) as u8, count as u8];
        nonce.extend_from_slice(&iv()[2..12]);
        assert_eq!(&frame[..2], &[0, 19]);
        let mut text = frame[2..5].to_vec();
        primitive
            .decrypt_in_place_detached(nonce.as_slice().into(), b"", &mut text, frame[5..].into())
            .expect("the chunk opens under the nonce of its counter");
        assert_eq!(text, data);
        assert!(!nonces.contains(&nonce));
        nonces.push(nonce);
    }
}

#[test]
fn counter_comes_back_to_zero_after_65536_chunks() {
    let mut writer = VmessAeadWriter::new(&iv(), aes());
    assert_eq!(writer.write(b"x"), 1);
    let first = writer.pending().to_vec();
    writer.advance(first.len());
    assert_eq!(writer.write(b"x"), 1);
    let second = writer.pending().to_vec();
    writer.advance(second.len());
    assert_ne!(first, second);
    for _ in 2..65536u32 {
        assert_eq!(writer.write(b"x"), 1);
        assert_ne!(writer.pending(), &first[..]);
        writer.advance(usize::MAX);
    }
    assert_eq!(writer.write(b"x"), 1);
    assert_eq!(writer.pending(), &first[..]);
}

#[test]
fn reader_and_writer_stay_in_step_over_many_chunks() {
    let mut writer = VmessAeadWriter::new(&iv(), chacha());
    let mut reader = VmessAeadReader::new(&iv(), chacha());
    for i in 0..70000u32 {
        let data = [i as u8, (i >> 8) as u8, (i >> 16) as u8];
        assert_eq!(writer.write(&data), 3);
        let mut out = Vec::new();
        assert_eq!(reader.read(writer.pending(), &mut out), Ok(ReadEvent::NeedMore(2)));
        assert_eq!(out, data);
        writer.advance(usize::MAX);
    }
}

#[test]
fn flipping_any_bit_of_a_chunk_fails_the_stream() {
    let mut writer = VmessAeadWriter::new(&iv(), aes());
    assert_eq!(writer.write(b"do not touch"), 12);
    let frame = writer.pending().to_vec();
    for bit in 16..frame.len() * 8 {
        let mut forged = frame.clone();
        forged[bit / 8] ^= 1 << (bit % 8);
        let mut reader = VmessAeadReader::new(&iv(), aes());
        let mut out = Vec::new();
        assert_eq!(reader.read(&forged, &mut out), Err(ReadError::AuthenticationFailed));
        assert!(out.is_empty());
        assert_eq!(reader.phase(), ReadPhase::Failed(ReadError::AuthenticationFailed));
        assert!(reader.replace_buffer(BytesMut::new()).is_empty());
    }
}

#[test]
fn flipping_any_bit_of_a_chacha_chunk_fails_the_stream() {
    let mut writer = VmessAeadWriter::new(&iv(), chacha());
    assert_eq!(writer.write(b"do not touch"), 12);
    let frame = writer.pending().to_vec();
    for bit in 16..frame.len() * 8 {
        let mut forged = frame.clone();
        forged[bit / 8] ^= 1 << (bit % 8);
        let mut reader = VmessAeadReader::new(&iv(), chacha());
        let mut out = Vec::new();
        assert_eq!(reader.read(&forged, &mut out), Err(ReadError::AuthenticationFailed));
        assert!(out.is_empty());
    }
}

#[test]
fn failure_keeps_what_was_read_before_and_is_final() {
    let mut writer = VmessAeadWriter::new(&iv(), aes());
    writer.write(b"good");
    let good = writer.pending().to_vec();
    writer.advance(good.len());
    writer.write(b"bad");
    let mut bad = writer.pending().to_vec();
    writer.advance(bad.len());
    writer.write(b"after");
    let after = writer.pending().to_vec();
    bad[7] ^= 0x10;

    let mut reader = VmessAeadReader::new(&iv(), aes());
    let mut out = Vec::new();
    let wire = [good, bad, after.clone()].concat();
    assert_eq!(reader.read(&wire, &mut out), Err(ReadError::AuthenticationFailed));
    assert_eq!(out, b"good");
    assert_eq!(reader.poll(&mut out), Err(ReadError::AuthenticationFailed));
    assert_eq!(reader.read(&after, &mut out), Err(ReadError::AuthenticationFailed));
    assert_eq!(out, b"good");
}

#[test]
fn chunk_under_the_wrong_counter_fails() {
    let mut writer = VmessAeadWriter::new(&iv(), aes());
    writer.write(b"first");
    writer.advance(usize::MAX);
    writer.write(b"second");
    let second = writer.pending().to_vec();
    let mut reader = VmessAeadReader::new(&iv(), aes());
    let mut out = Vec::new();
    assert_eq!(reader.read(&second, &mut out), Err(ReadError::AuthenticationFailed));
    assert!(out.is_empty());
}

#[test]
fn chunk_under_another_iv_or_key_fails() {
    let mut writer = VmessAeadWriter::new(&iv(), aes());
    writer.write(b"data");
    let frame = writer.pending().to_vec();

    let mut other_iv = iv();
    other_iv[5] ^= 1;
    let mut reader = VmessAeadReader::new(&other_iv, aes());
    let mut out = Vec::new();
    assert_eq!(reader.read(&frame, &mut out), Err(ReadError::AuthenticationFailed));

    let other_key = VmessSecurity::Aes128Gcm(Aes128Gcm::new_with_slice(&[9u8; 16]));
    let mut reader = VmessAeadReader::new(&iv(), other_key);
    assert_eq!(reader.read(&frame, &mut out), Err(ReadError::AuthenticationFailed));
    assert!(out.is_empty());
}

#[test]
fn nonce_uses_only_bytes_2_to_11_of_the_iv() {
    let mut writer = VmessAeadWriter::new(&iv(), aes());
    writer.write(b"data");
    let frame = writer.pending().to_vec();
    let mut other_iv = iv();
    other_iv[0] ^= 0xff;
    other_iv[1] ^= 0xff;
    for i in 12..16 {
        other_iv[i] ^= 0xff;
    }
    let mut reader = VmessAeadReader::new(&other_iv, aes());
    let mut out = Vec::new();
    assert_eq!(reader.read(&frame, &mut out), Ok(ReadEvent::NeedMore(2)));
    assert_eq!(out, b"data");
}

#[test]
fn length_below_the_tag_length_is_malformed() {
    for length in 0..16u8 {
        let mut reader = VmessAeadReader::new(&iv(), aes());
        let mut out = Vec::new();
        assert_eq!(reader.read(&[0, length], &mut out), Err(ReadError::MalformedLength));
        assert_eq!(reader.phase(), ReadPhase::Failed(ReadError::MalformedLength));
        assert_eq!(reader.read(&[0; 40], &mut out), Err(ReadError::MalformedLength));
        assert!(out.is_empty());
    }
    let mut reader = VmessAeadReader::new(&iv(), aes());
    let mut out = Vec::new();
    assert_eq!(reader.read(&[0, 16], &mut out), Ok(ReadEvent::NeedMore(16)));
}

#[test]
fn length_is_read_most_significant_byte_first() {
    let mut reader = VmessAeadReader::new(&iv(), aes());
    let mut out = Vec::new();
    assert_eq!(reader.read(&[0x01, 0x02, 0xff], &mut out), Ok(ReadEvent::NeedMore(257)));
    let mut reader = VmessAeadReader::new(&iv(), aes());
    assert_eq!(reader.read(&[0xff, 0xff], &mut out), Ok(ReadEvent::NeedMore(65535)));
}

#[test]
fn replaced_buffer_is_read_from() {
    let mut writer = VmessAeadWriter::new(&iv(), aes());
    writer.write(b"swapped in");
    let frame = writer.pending().to_vec();
    let mut reader = VmessAeadReader::new(&iv(), aes());
    reader.feed(b"junk");
    let held = reader.replace_buffer(BytesMut::from(&frame[..]));
    assert_eq!(&held[..], b"junk");
    let mut out = Vec::new();
    assert_eq!(reader.poll(&mut out), Ok(ReadEvent::Data(10)));
    assert_eq!(out, b"swapped in");
}

#[test]
fn plaintext_is_appended_to_what_out_holds() {
    let mut writer = VmessAeadWriter::new(&iv(), aes());
    writer.write(b"tail");
    let frame = writer.pending().to_vec();
    let mut reader = VmessAeadReader::new(&iv(), aes());
    let mut out = b"head-".to_vec();
    assert_eq!(reader.read(&frame, &mut out), Ok(ReadEvent::NeedMore(2)));
    assert_eq!(out, b"head-tail");
}

#[test]
fn write_all_emits_the_frames_and_the_end() {
    let data = pattern(2 * MAX_CHUNK_PLAINTEXT + 300);
    let mut by_hand = VmessAeadWriter::new(&iv(), aes());
    let expected = frames_of(&mut by_hand, &data).concat();

    let mut writer = VmessAeadWriter::new(&iv(), aes());
    let mut wire = b"kept".to_vec();
    assert!(writer.write_all(&data, &mut wire));
    assert_eq!(&wire[..4], b"kept");
    assert_eq!(&wire[4..], &expected[..]);
    assert_eq!(writer.phase(), WritePhase::Closed);
    assert!(writer.pending().is_empty());
}

#[test]
fn write_all_of_nothing_is_the_terminal_chunk() {
    let mut writer = VmessAeadWriter::new(&iv(), aes());
    let mut wire = Vec::new();
    assert!(writer.write_all(&[], &mut wire));
    assert_eq!(wire, unhex("00105a1de8fda71234d169b8e72ed83270b2"));
}

#[test]
fn write_all_reads_back_in_any_pieces() {
    for len in [0usize, 1, 17, 4096, MAX_CHUNK_PLAINTEXT, MAX_CHUNK_PLAINTEXT + 1] {
        let data = pattern(len);
        let mut writer = VmessAeadWriter::new(&iv(), chacha());
        let mut wire = Vec::new();
        assert!(writer.write_all(&data, &mut wire));
        for size in [1usize, 2, 3, 18, 19, 1000, wire.len()] {
            let mut reader = VmessAeadReader::new(&iv(), chacha());
            let mut out = Vec::new();
            let mut last = Ok(ReadEvent::NeedMore(2));
            for piece in wire.chunks(size) {
                last = reader.read(piece, &mut out);
            }
            assert_eq!(last, Ok(ReadEvent::End));
            assert_eq!(out, data);
        }
    }
}

#[test]
fn write_all_does_nothing_unless_ready() {
    let mut writer = VmessAeadWriter::new(&iv(), aes());
    assert_eq!(writer.write(b"pending"), 7);
    let frame = writer.pending().to_vec();
    let mut wire = Vec::new();
    assert!(!writer.write_all(b"more", &mut wire));
    assert!(wire.is_empty());
    assert_eq!(writer.pending(), &frame[..]);
    writer.advance(frame.len());
    assert!(writer.write_all(b"more", &mut wire));
    assert!(!writer.write_all(b"more", &mut wire));
    assert_eq!(writer.phase(), WritePhase::Closed);
}

#[test]
fn security_is_named_by_its_selector() {
    assert!(matches!(VmessSecurity::new(0x03, &[0u8; 16]), Some(VmessSecurity::Aes128Gcm(_))));
    assert!(matches!(
        VmessSecurity::new(0x04, &[0u8; 32]),
        Some(VmessSecurity::ChaCha20Poly1305(_))
    ));
    assert!(VmessSecurity::new(0x03, &[0u8; 32]).is_none());
    assert!(VmessSecurity::new(0x04, &[0u8; 16]).is_none());
    assert!(VmessSecurity::new(0x03, &[0u8; 15]).is_none());
    assert!(VmessSecurity::new(0x05, &[0u8; 16]).is_none());
    assert!(VmessSecurity::new(0x00, &[0u8; 32]).is_none());

    let key: Vec<u8> = (0..16u8).collect();
    let mut writer = VmessAeadWriter::new(&iv(), VmessSecurity::new(0x03, &key).unwrap());
    assert_eq!(writer.write(b"hello"), 5);
    assert_eq!(writer.pending(), &unhex("00154bd924e14452a0337cfd7a07a945560bd4904215d1")[..]);
    let key: Vec<u8> = (0..32u8).collect();
    let mut writer = VmessAeadWriter::new(&iv(), VmessSecurity::new(0x04, &key).unwrap());
    assert_eq!(writer.write(b"hello"), 5);
    assert_eq!(writer.pending(), &unhex("001529f073dcce62b5b48757550d6ab40ca2200fef770e")[..]);
}
