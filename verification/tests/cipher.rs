use aes_gcm::aead::{AeadInPlace, KeyInit};
use vmess::aead::VmessSecurity;
use vmess::aead_helper::{
    all_zero, random_iv_or_salt, AeadCipherHelper, Aes128, Aes128Gcm, Aes256Gcm,
    BlockCipherHelper, ChaCha20Poly1305,
};

fn unhex(s: &str) -> Vec<u8> {
    (0..s.len() / 2).map(|i| u8::from_str_radix(&s[2 * i..2 * i + 2], 16).unwrap()).collect()
}

fn with_tag_room(msg: &[u8]) -> Vec<u8> {
    let mut buffer = msg.to_vec();
    buffer.resize(msg.len() + 16, 0);
    buffer
}

#[test]
fn aes128_gcm_known_answer_without_plaintext() {
    let cipher = Aes128Gcm::new_with_slice(&[0u8; 16]);
    let mut buffer = with_tag_room(b"");
    cipher.encrypt_inplace_with_slice(&[0u8; 12], &[], &mut buffer);
    assert_eq!(buffer, unhex("58e2fccefa7e3061367f1d57a4e7455a"));
}

#[test]
fn aes128_gcm_known_answer_one_block() {
    let cipher = Aes128Gcm::new_with_slice(&[0u8; 16]);
    let mut buffer = with_tag_room(&[0u8; 16]);
    cipher.encrypt_inplace_with_slice(&[0u8; 12], &[], &mut buffer);
    assert_eq!(
        buffer,
        unhex("0388dace60b6a392f328c2b971b2fe78ab6e47d42cec13bdf53a67b21257bddf")
    );
}

#[test]
fn aes128_gcm_known_answer_with_associated_data() {
    let key: Vec<u8> = (0..16u8).collect();
    let nonce: Vec<u8> = (0..12u8).collect();
    let cipher = Aes128Gcm::new_with_slice(&key);
    let mut buffer = with_tag_room(b"abc");
    cipher.encrypt_inplace_with_slice(&nonce, b"xyz", &mut buffer);
    assert_eq!(buffer, unhex("f20ec444cffe111afc84ee80fce3a243d6e646"));
}

#[test]
fn aes256_gcm_known_answer() {
    let key: Vec<u8> = (0..32u8).collect();
    let cipher = Aes256Gcm::new_with_slice(&key);
    let mut buffer = with_tag_room(b"sixteen byte msg");
    cipher.encrypt_inplace_with_slice(&[0u8; 12], b"header", &mut buffer);
    assert_eq!(
        buffer,
        unhex("7dd5cdaad049ed9d6ad1dd503841e2fe507ef59b2c4a980bdb90b14fa545a7f2")
    );
}

#[test]
fn chacha20_poly1305_known_answer() {
    let key = unhex("808182838485868788898a8b8c8d8e8f909192939495969798999a9b9c9d9e9f");
    let nonce = unhex("070000004041424344454647");
    let aad = unhex("50515253c0c1c2c3c4c5c6c7");
    let msg: &[u8] = b"Ladies and Gentlemen of the class of '99: If I could offer you only one tip for the future, sunscreen would be it.";
    let cipher = ChaCha20Poly1305::new_with_slice(&key);
    let mut buffer = with_tag_room(msg);
    cipher.encrypt_inplace_with_slice(&nonce, &aad, &mut buffer);
    assert_eq!(
        buffer,
        unhex(concat_hex(&[
            "d31a8d34648e60db7b86afbc53ef7ec2a4aded51296e08fea9e2b5a736ee62d6",
            "3dbea45e8ca9671282fafb69da92728b1a71de0a9e060b2905d6a5b67ecd3b36",
            "92ddbd7f2d778b8c9803aee328091b58fab324e4fad675945585808b4831d7bc",
            "3ff4def08e4b7a9de576d26586cec64b6116",
            "1ae10b594f09e26a7e902ecbd0600691",
        ])
        .as_str())
    );
}

fn concat_hex(parts: &[&str]) -> String {
    parts.concat()
}

#[test]
fn aes128_gcm_agrees_with_the_primitive() {
    let key: Vec<u8> = (0..16u8).map(|i| i * 3 + 1).collect();
    let nonce: Vec<u8> = (0..12u8).map(|i| 0xf0 - i).collect();
    let msg: Vec<u8> = (0..100u8).collect();
    let mut expected = msg.clone();
    let tag = aes_gcm::Aes128Gcm::new_from_slice(&key)
        .unwrap()
        .encrypt_in_place_detached(nonce.as_slice().into(), b"", &mut expected)
        .unwrap();
    expected.extend_from_slice(&tag);

    let cipher = Aes128Gcm::new_with_slice(&key);
    let mut buffer = with_tag_room(&msg);
    cipher.encrypt_inplace_with_slice(&nonce, b"", &mut buffer);
    assert_eq!(buffer, expected);
    assert_ne!(&buffer[..100], &msg[..]);
}

#[test]
fn chacha20_poly1305_agrees_with_the_primitive() {
    let key: Vec<u8> = (0..32u8).map(|i| i * 5 + 2).collect();
    let nonce: Vec<u8> = (0..12u8).map(|i| 0x80 + i).collect();
    let msg: Vec<u8> = (0..77u8).collect();
    let mut expected = msg.clone();
    let tag = chacha20poly1305::ChaCha20Poly1305::new_from_slice(&key)
        .unwrap()
        .encrypt_in_place_detached(nonce.as_slice().into(), b"ad", &mut expected)
        .unwrap();
    expected.extend_from_slice(&tag);

    let cipher = ChaCha20Poly1305::new_with_slice(&key);
    let mut buffer = with_tag_room(&msg);
    cipher.encrypt_inplace_with_slice(&nonce, b"ad", &mut buffer);
    assert_eq!(buffer, expected);
}

#[test]
fn every_cipher_opens_what_it_seals() {
    let msg: Vec<u8> = (0..=255u8).collect();
    let nonce = [7u8; 12];

    let c = Aes128Gcm::new_with_slice(&[1u8; 16]);
    let mut buffer = with_tag_room(&msg);
    c.encrypt_inplace_with_slice(&nonce, b"a", &mut buffer);
    assert!(c.decrypt_in_place_with_slice(&nonce, b"a", &mut buffer));
    assert_eq!(&buffer[..256], &msg[..]);

    let c = Aes256Gcm::new_with_slice(&[2u8; 32]);
    let mut buffer = with_tag_room(&msg);
    c.encrypt_inplace_with_slice(&nonce, b"a", &mut buffer);
    assert!(c.decrypt_in_place_with_slice(&nonce, b"a", &mut buffer));
    assert_eq!(&buffer[..256], &msg[..]);

    let c = ChaCha20Poly1305::new_with_slice(&[3u8; 32]);
    let mut buffer = with_tag_room(&msg);
    c.encrypt_inplace_with_slice(&nonce, b"a", &mut buffer);
    assert!(c.decrypt_in_place_with_slice(&nonce, b"a", &mut buffer));
    assert_eq!(&buffer[..256], &msg[..]);
}

#[test]
fn decryption_fails_on_another_key_nonce_or_associated_data() {
    let msg = b"attack at dawn";
    let nonce = [9u8; 12];
    let c = Aes128Gcm::new_with_slice(&[1u8; 16]);
    let mut sealed = with_tag_room(msg);
    c.encrypt_inplace_with_slice(&nonce, b"a", &mut sealed);

    let mut buffer = sealed.clone();
    assert!(!Aes128Gcm::new_with_slice(&[2u8; 16]).decrypt_in_place_with_slice(
        &nonce,
        b"a",
        &mut buffer
    ));
    let mut buffer = sealed.clone();
    assert!(!c.decrypt_in_place_with_slice(&[8u8; 12], b"a", &mut buffer));
    let mut buffer = sealed.clone();
    assert!(!c.decrypt_in_place_with_slice(&nonce, b"b", &mut buffer));
    let mut buffer = sealed.clone();
    assert!(c.decrypt_in_place_with_slice(&nonce, b"a", &mut buffer));
}

#[test]
fn decryption_leaves_the_tag_in_place() {
    let c = ChaCha20Poly1305::new_with_slice(&[3u8; 32]);
    let mut buffer = with_tag_room(b"abcdef");
    c.encrypt_inplace_with_slice(&[0u8; 12], &[], &mut buffer);
    let tag = buffer[6..].to_vec();
    assert!(c.decrypt_in_place_with_slice(&[0u8; 12], &[], &mut buffer));
    assert_eq!(&buffer[..6], b"abcdef");
    assert_eq!(&buffer[6..], &tag[..]);
}

#[test]
fn security_dispatches_to_its_cipher() {
    let key16: Vec<u8> = (0..16u8).collect();
    let key32: Vec<u8> = (0..32u8).collect();
    let nonce: Vec<u8> = (0..12u8).collect();

    let aes = VmessSecurity::Aes128Gcm(Aes128Gcm::new_with_slice(&key16));
    let mut buffer = with_tag_room(b"abc");
    aes.encrypt_in_place(&nonce, b"xyz", &mut buffer);
    assert_eq!(buffer, unhex("f20ec444cffe111afc84ee80fce3a243d6e646"));
    assert!(aes.decrypt_in_place(&nonce, b"xyz", &mut buffer));
    assert_eq!(&buffer[..3], b"abc");

    let chacha = VmessSecurity::ChaCha20Poly1305(ChaCha20Poly1305::new_with_slice(&key32));
    let mut buffer = with_tag_room(b"abc");
    chacha.encrypt_in_place(&nonce, b"xyz", &mut buffer);
    assert_eq!(buffer, unhex("e8996b55423da7c196bd9d1d1cd84d59f1fb5e"));
    assert!(chacha.decrypt_in_place(&nonce, b"xyz", &mut buffer));
    assert_eq!(&buffer[..3], b"abc");
    buffer[0] ^= 1;
    chacha.encrypt_in_place(&nonce, b"xyz", &mut buffer);
    buffer[18] ^= 0x80;
    assert!(!chacha.decrypt_in_place(&nonce, b"xyz", &mut buffer));
}

#[test]
fn security_lengths() {
    let aes = VmessSecurity::Aes128Gcm(Aes128Gcm::new_with_slice(&[0u8; 16]));
    let chacha = VmessSecurity::ChaCha20Poly1305(ChaCha20Poly1305::new_with_slice(&[0u8; 32]));
    for security in [&aes, &chacha] {
        assert_eq!(security.overhead_len(), 16);
        assert_eq!(security.nonce_len(), 12);
        assert_eq!(security.tag_len(), 16);
    }
}

#[test]
fn aes128_block_known_answer() {
    let key: Vec<u8> = (0..16u8).collect();
    let cipher = Aes128::new_with_slice(&key);
    let mut block = unhex("00112233445566778899aabbccddeeff");
    cipher.encrypt_with_slice(&mut block);
    assert_eq!(block, unhex("69c4e0d86a7b0430d8cdb78070b4c55a"));
    cipher.decrypt_with_slice(&mut block);
    assert_eq!(block, unhex("00112233445566778899aabbccddeeff"));
}

#[test]
fn all_zero_tells_zero_buffers() {
    assert!(all_zero(&[]));
    assert!(all_zero(&[0, 0, 0]));
    assert!(!all_zero(&[0, 0, 1]));
    assert!(!all_zero(&[0x80, 0, 0]));
}

#[test]
fn random_iv_or_salt_leaves_an_empty_buffer_alone() {
    let mut nothing: [u8; 0] = [];
    assert!(!random_iv_or_salt(&mut nothing));
}

#[test]
fn random_iv_or_salt_fills_with_something_other_than_zeros() {
    for len in [1usize, 2, 16, 64] {
        let mut buffer = vec![0u8; len];
        let nonzero = random_iv_or_salt(&mut buffer);
        assert_eq!(buffer.len(), len);
        assert_eq!(nonzero, !all_zero(&buffer));
        assert!(nonzero);
    }
}

#[test]
fn random_iv_or_salt_draws_anew_each_time() {
    let mut a = [0u8; 32];
    let mut b = [0u8; 32];
    assert!(random_iv_or_salt(&mut a));
    assert!(random_iv_or_salt(&mut b));
    assert_ne!(a, b);
}

#[test]
fn failed_decryption_leaves_the_buffer_as_it_was() {
    let msg: Vec<u8> = (0..70u8).collect();
    let nonce = [5u8; 12];

    let c = Aes128Gcm::new_with_slice(&[1u8; 16]);
    let mut sealed = with_tag_room(&msg);
    c.encrypt_inplace_with_slice(&nonce, b"a", &mut sealed);
    for at in [0usize, 33, 69, 70, 85] {
        let mut buffer = sealed.clone();
        buffer[at] ^= 0x04;
        let forged = buffer.clone();
        assert!(!c.decrypt_in_place_with_slice(&nonce, b"a", &mut buffer));
        assert_eq!(buffer, forged);
    }

    let c = Aes256Gcm::new_with_slice(&[2u8; 32]);
    let mut sealed = with_tag_room(&msg);
    c.encrypt_inplace_with_slice(&nonce, b"a", &mut sealed);
    for at in [0usize, 33, 69, 70, 85] {
        let mut buffer = sealed.clone();
        buffer[at] ^= 0x04;
        let forged = buffer.clone();
        assert!(!c.decrypt_in_place_with_slice(&nonce, b"a", &mut buffer));
        assert_eq!(buffer, forged);
    }

    let c = ChaCha20Poly1305::new_with_slice(&[3u8; 32]);
    let mut sealed = with_tag_room(&msg);
    c.encrypt_inplace_with_slice(&nonce, b"a", &mut sealed);
    for at in [0usize, 33, 69, 70, 85] {
        let mut buffer = sealed.clone();
        buffer[at] ^= 0x04;
        let forged = buffer.clone();
        assert!(!c.decrypt_in_place_with_slice(&nonce, b"a", &mut buffer));
        assert_eq!(buffer, forged);
    }
}

#[test]
fn failed_decryption_through_security_leaves_the_buffer_as_it_was() {
    let key32: Vec<u8> = (0..32u8).collect();
    let chacha = VmessSecurity::ChaCha20Poly1305(ChaCha20Poly1305::new_with_slice(&key32));
    let mut sealed = with_tag_room(b"some plaintext");
    chacha.encrypt_in_place(&[1u8; 12], &[], &mut sealed);
    let mut buffer = sealed.clone();
    buffer[3] ^= 1;
    let forged = buffer.clone();
    assert!(!chacha.decrypt_in_place(&[1u8; 12], &[], &mut buffer));
    assert_eq!(buffer, forged);
    let tag = sealed[14..].to_vec();
    assert!(chacha.decrypt_in_place(&[1u8; 12], &[], &mut sealed));
    assert_eq!(&sealed[..14], b"some plaintext");
    assert_eq!(&sealed[14..], &tag[..]);
}

#[test]
fn decryption_gives_the_same_answer_every_time() {
    let c = Aes128Gcm::new_with_slice(&[7u8; 16]);
    let mut sealed = with_tag_room(b"twice");
    c.encrypt_inplace_with_slice(&[0u8; 12], &[], &mut sealed);
    let mut forged = sealed.clone();
    forged[20] ^= 0x40;
    for _ in 0..3 {
        let mut a = sealed.clone();
        assert!(c.decrypt_in_place_with_slice(&[0u8; 12], &[], &mut a));
        assert_eq!(&a[..5], b"twice");
        let mut b = forged.clone();
        assert!(!c.decrypt_in_place_with_slice(&[0u8; 12], &[], &mut b));
        assert_eq!(b, forged);
    }
}
