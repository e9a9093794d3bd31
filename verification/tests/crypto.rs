use gilma::crypto::{CryptoEngine, KeyExchange, ROTATION_INTERVAL_SECS};
use sha2::{Digest, Sha256};
use aes_gcm::aead::Aead;
use aes_gcm::{Aes256Gcm, KeyInit, Nonce};

fn sha(parts: &[&[u8]]) -> [u8; 32] {
    let mut hasher = Sha256::new();
    for p in parts {
        hasher.update(p);
    }
    hasher.finalize().into()
}

fn encrypted(engine: &mut CryptoEngine, plaintext: &[u8], now: u64) -> Vec<u8> {
    match engine.encrypt_at(plaintext, now) {
        Ok(c) => c,
        Err(m) => panic!("encryption failed: {}", m),
    }
}

#[test]
fn encrypt_then_decrypt_gives_plaintext_back() {
    let key = [7u8; 32];
    let mut engine = CryptoEngine::new_at(&key, 1000);
    let c = encrypted(&mut engine, b"hello gilma", 1010);
    assert_eq!(c.len(), 12 + 11 + 16);
    assert_eq!(engine.decrypt(&c), Ok(b"hello gilma".to_vec()));
}

#[test]
fn nonce_is_message_counter_then_zeros() {
    let mut engine = CryptoEngine::new_at(&[1u8; 32], 0);
    let first = encrypted(&mut engine, b"a", 1);
    let second = encrypted(&mut engine, b"a", 2);
    assert_eq!(&first[..12], &[1u8, 0, 0, 0, 0, 0, 0, 0, 0, 0, 0, 0]);
    assert_eq!(&second[..12], &[2u8, 0, 0, 0, 0, 0, 0, 0, 0, 0, 0, 0]);
    assert_ne!(first[12..], second[12..]);
}

#[test]
fn ciphertext_is_aes256gcm_of_plaintext() {
    let key = [9u8; 32];
    let mut engine = CryptoEngine::new_at(&key, 50);
    let c = encrypted(&mut engine, b"payload", 60);
    let cipher = Aes256Gcm::new_from_slice(&key).unwrap();
    let mut nonce = [0u8; 12];
    nonce[0] = 1;
    let expected = cipher.encrypt(Nonce::from_slice(&nonce), b"payload".as_ref()).unwrap();
    assert_eq!(c[12..].to_vec(), expected);
    assert_ne!(c[12..19].to_vec(), b"payload".to_vec());
}

#[test]
fn empty_plaintext_encrypts_to_nonce_and_tag() {
    let mut engine = CryptoEngine::new_at(&[3u8; 32], 0);
    let c = encrypted(&mut engine, b"", 0);
    assert_eq!(c.len(), 28);
    assert_eq!(engine.decrypt(&c), Ok(Vec::new()));
}

#[test]
fn decrypt_rejects_short_data() {
    let mut engine = CryptoEngine::new_at(&[3u8; 32], 0);
    assert_eq!(engine.decrypt(&[0u8; 11]), Err("Invalid encrypted data length".to_string()));
    assert_eq!(engine.decrypt(&[]), Err("Invalid encrypted data length".to_string()));
}

#[test]
fn decrypt_rejects_tampered_data() {
    let mut engine = CryptoEngine::new_at(&[3u8; 32], 0);
    let mut c = encrypted(&mut engine, b"secret", 0);
    let last = c.len() - 1;
    c[last] ^= 1;
    match engine.decrypt(&c) {
        Err(m) => assert_eq!(m, "Decryption failed: aead::Error"),
        Ok(_) => panic!("tampered data decrypted"),
    }
    match engine.decrypt(&[0u8; 12]) {
        Err(m) => assert_eq!(m, "Decryption failed: aead::Error"),
        Ok(_) => panic!("a bare nonce decrypted"),
    }
}

#[test]
fn decrypt_with_another_key_fails() {
    let mut a = CryptoEngine::new_at(&[1u8; 32], 0);
    let mut b = CryptoEngine::new_at(&[2u8; 32], 0);
    let c = encrypted(&mut a, b"x", 0);
    assert!(b.decrypt(&c).is_err());
}

#[test]
fn rotation_is_due_after_the_interval() {
    let engine = CryptoEngine::new_at(&[0u8; 32], 1000);
    assert_eq!(ROTATION_INTERVAL_SECS, 300);
    assert!(!engine.should_rotate_key_at(1000));
    assert!(!engine.should_rotate_key_at(1299));
    assert!(engine.should_rotate_key_at(1300));
    assert!(engine.should_rotate_key_at(5000));
}

#[test]
fn rotation_check_wraps_when_clock_goes_back() {
    let engine = CryptoEngine::new_at(&[0u8; 32], 1000);
    assert!(engine.should_rotate_key_at(999));
}

#[test]
fn rotate_key_hashes_key_counter_and_time() {
    let key = [5u8; 32];
    let mut engine = CryptoEngine::new_at(&key, 10);
    let new_key = engine.rotate_key_at(400);
    let expected = sha(&[&key, &1u64.to_le_bytes(), &400u64.to_le_bytes()]);
    assert_eq!(new_key, expected);
    assert_eq!(engine.get_current_key(), expected);
    assert!(!engine.should_rotate_key_at(699));
    assert!(engine.should_rotate_key_at(700));
    let newer = engine.rotate_key_at(700);
    assert_eq!(newer, sha(&[&expected, &2u64.to_le_bytes(), &700u64.to_le_bytes()]));
}

#[test]
fn encrypt_rotates_when_due() {
    let key = [5u8; 32];
    let mut engine = CryptoEngine::new_at(&key, 0);
    let _ = encrypted(&mut engine, b"early", 299);
    assert_eq!(engine.get_current_key(), key);
    let c = encrypted(&mut engine, b"late", 300);
    let rotated = sha(&[&key, &1u64.to_le_bytes(), &300u64.to_le_bytes()]);
    assert_eq!(engine.get_current_key(), rotated);
    assert_eq!(&c[..8], &2u64.to_le_bytes());
    assert_eq!(engine.decrypt(&c), Ok(b"late".to_vec()));
}

#[test]
fn engine_with_clock_round_trips() {
    let key = [11u8; 32];
    let mut engine = CryptoEngine::new(&key).unwrap();
    assert_eq!(engine.get_current_key(), key);
    assert_eq!(engine.should_rotate_key(), Some(false));
    let c = match engine.encrypt(b"now") {
        Ok(c) => c,
        Err(m) => panic!("{}", m),
    };
    assert_eq!(engine.decrypt(&c), Ok(b"now".to_vec()));
    let k = engine.rotate_key().unwrap();
    assert_eq!(engine.get_current_key(), k);
    assert_ne!(k, key);
}

#[test]
fn public_key_is_hash_of_private_key_and_salt() {
    let private = [42u8; 32];
    let kx = KeyExchange::from_private_key(private);
    assert_eq!(kx.get_public_key(), sha(&[&private, b"gilma-public-key-salt"]));
    assert_ne!(kx.get_public_key(), private);
}

#[test]
fn shared_key_is_hash_of_private_peer_and_salt() {
    let private = [1u8; 32];
    let peer = [2u8; 32];
    let kx = KeyExchange::from_private_key(private);
    assert_eq!(kx.derive_shared_key(&peer), sha(&[&private, &peer, b"gilma-shared-key-salt"]));
    assert_eq!(kx.derive_shared_key(&peer), kx.derive_shared_key(&peer));
}

#[test]
fn fresh_key_pairs_differ() {
    let a = KeyExchange::new().unwrap();
    let b = KeyExchange::new().unwrap();
    assert_ne!(a.get_public_key(), b.get_public_key());
}

#[test]
fn fresh_key_pair_is_consistent() {
    let kx = KeyExchange::new().unwrap();
    let peer = KeyExchange::from_private_key([3u8; 32]);
    assert_ne!(kx.get_public_key(), [0u8; 32]);
    assert_eq!(kx.derive_shared_key(&peer.get_public_key()), kx.derive_shared_key(&peer.get_public_key()));
}

#[test]
fn encrypting_empty_plaintext_gives_28_bytes() {
    let mut engine = CryptoEngine::new(&[0u8; 32]).unwrap();
    let c = match engine.encrypt(b"") {
        Ok(c) => c,
        Err(m) => panic!("{}", m),
    };
    assert_eq!(c.len(), 28);
    assert_eq!(&c[..12], &[1u8, 0, 0, 0, 0, 0, 0, 0, 0, 0, 0, 0]);
    assert_eq!(engine.get_current_key(), [0u8; 32]);
}

#[test]
fn nonces_stay_distinct_across_rotations() {
    let mut engine = CryptoEngine::new_at(&[6u8; 32], 0);
    let mut nonces: Vec<Vec<u8>> = Vec::new();
    for now in [0u64, 100, 300, 301, 900, 900, 5000] {
        let c = encrypted(&mut engine, b"m", now);
        nonces.push(c[..12].to_vec());
    }
    for i in 0..nonces.len() {
        for j in (i + 1)..nonces.len() {
            assert_ne!(nonces[i], nonces[j]);
        }
    }
    assert_ne!(engine.get_current_key(), [6u8; 32]);
}
