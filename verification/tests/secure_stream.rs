use gilma::crypto::CryptoEngine;
use gilma::secure_stream::{frame, frame_length, line_payload, open_line, seal_bytes, seal_line};

#[test]
fn frame_prefixes_little_endian_length() {
    assert_eq!(frame(b"abc"), vec![3u8, 0, 0, 0, 97, 98, 99]);
    assert_eq!(frame(b""), vec![0u8, 0, 0, 0]);
    let big = vec![0u8; 300];
    let f = frame(&big);
    assert_eq!(&f[..4], &[44u8, 1, 0, 0]);
    assert_eq!(f.len(), 304);
}

#[test]
fn frame_length_reads_header() {
    assert_eq!(frame_length(&[3, 0, 0, 0]), 3);
    assert_eq!(frame_length(&[0, 1, 0, 0]), 256);
    assert_eq!(frame_length(&[255, 255, 255, 255]), 4294967295);
    let f = frame(&[1u8; 70000]);
    assert_eq!(frame_length(&f[..4]), 70000);
}

#[test]
fn line_payload_appends_newline() {
    assert_eq!(line_payload("hi"), b"hi\n".to_vec());
    assert_eq!(line_payload(""), b"\n".to_vec());
    assert_eq!(line_payload("é"), vec![0xc3u8, 0xa9, 10]);
}

#[test]
fn sealed_line_opens_to_the_line() {
    let key = [4u8; 32];
    let mut sender = CryptoEngine::new_at(&key, 0);
    let mut receiver = CryptoEngine::new_at(&key, 0);
    let framed = match seal_line(&mut sender, "LIST", 10) {
        Ok(f) => f,
        Err(m) => panic!("{}", m),
    };
    let len = frame_length(&framed[..4]);
    assert_eq!(len, framed.len() - 4);
    assert_eq!(len, 12 + 5 + 16);
    assert_eq!(open_line(&mut receiver, &framed[4..]), Ok("LIST".to_string()));
}

#[test]
fn open_line_strips_all_trailing_newlines() {
    let key = [4u8; 32];
    let mut sender = CryptoEngine::new_at(&key, 0);
    let mut receiver = CryptoEngine::new_at(&key, 0);
    let framed = match seal_line(&mut sender, "a\n\n", 10) {
        Ok(f) => f,
        Err(m) => panic!("{}", m),
    };
    assert_eq!(open_line(&mut receiver, &framed[4..]), Ok("a".to_string()));
}

#[test]
fn open_line_reads_invalid_utf8_leniently() {
    let key = [4u8; 32];
    let mut sender = CryptoEngine::new_at(&key, 0);
    let mut receiver = CryptoEngine::new_at(&key, 0);
    let framed = match seal_bytes(&mut sender, &[b'o', b'k', 0xff, b'\n'], 10) {
        Ok(f) => f,
        Err(m) => panic!("{}", m),
    };
    assert_eq!(open_line(&mut receiver, &framed[4..]), Ok("ok\u{FFFD}".to_string()));
}

#[test]
fn open_line_reports_decryption_errors() {
    let mut receiver = CryptoEngine::new_at(&[4u8; 32], 0);
    assert_eq!(open_line(&mut receiver, &[1, 2, 3]), Err("Invalid encrypted data length".to_string()));
    match open_line(&mut receiver, &[0u8; 40]) {
        Err(m) => assert_eq!(m, "Decryption failed: aead::Error"),
        Ok(_) => panic!("garbage opened"),
    }
}

#[test]
fn sealed_bytes_open_with_decrypt() {
    let key = [8u8; 32];
    let mut sender = CryptoEngine::new_at(&key, 0);
    let mut receiver = CryptoEngine::new_at(&key, 0);
    let framed = match seal_bytes(&mut sender, &[0u8, 1, 2, 255], 10) {
        Ok(f) => f,
        Err(m) => panic!("{}", m),
    };
    assert_eq!(framed.len(), 4 + 12 + 4 + 16);
    assert_eq!(receiver.decrypt(&framed[4..]), Ok(vec![0u8, 1, 2, 255]));
}
