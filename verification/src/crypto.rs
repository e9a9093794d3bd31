//! The encryption engine (AES-256-GCM with a counter nonce and a hash-based
//! key schedule) and the simple key exchange.

use vstd::prelude::*;
use vstd::bytes::{spec_u64_to_le_bytes, u64_to_le_bytes};
use vstd::slice::slice_subrange;
use aes_gcm::aead::Aead;
use aes_gcm::KeyInit;
use sha2::Digest;
use std::time::UNIX_EPOCH;
use vstd::string::StringSliceAdditionalSpecFns;
use aes_gcm::aead::rand_core::RngCore;

verus! {

/// What SHA-256 gives for a message.
pub uninterp spec fn sha256_digest(data: Seq<u8>) -> Seq<u8>;

/// Calls `sha2::Sha256::digest`. Trusted: the result is the SHA-256 digest of
/// `data`, a function of `data` alone, 32 bytes long.
#[verifier::external_body]
fn sha256(data: &[u8]) -> (digest: [u8; 32])
    ensures
        digest@ == sha256_digest(data@),
{
    sha2::Sha256::digest(data).into()
}

/// Draws 32 bytes from the operating system's random source: calls
/// `RngCore::try_fill_bytes` on `aes_gcm::aead::OsRng`, and gives `None` where
/// the source fails. Nothing is promised of the bytes.
#[verifier::external_body]
fn random_key() -> (key: Option<[u8; 32]>) {
    let mut key = [0u8; 32];
    match aes_gcm::aead::OsRng.try_fill_bytes(&mut key) {
        Ok(()) => Some(key),
        Err(_) => None,
    }
}


// ---------------------------------------------------------------------------
// AES-256-GCM

/// The longest plaintext AES-GCM encrypts: 2^36 bytes.
pub open spec fn aead_max_plaintext() -> nat {
    0x10_0000_0000
}

/// What AES-256-GCM encryption gives for a key, a 12-byte nonce and a
/// plaintext: the ciphertext followed by the 16-byte tag.
pub uninterp spec fn aes256gcm_seal(key: Seq<u8>, nonce: Seq<u8>, plaintext: Seq<u8>) -> Seq<u8>;

/// What AES-256-GCM decryption gives for a key, a nonce and a ciphertext with
/// its tag: the plaintext, or `None` where the tag does not authenticate.
pub uninterp spec fn aes256gcm_open(key: Seq<u8>, nonce: Seq<u8>, ciphertext: Seq<u8>) -> Option<Seq<u8>>;

/// The error of `aes_gcm` (`aead::Error`), which carries no data.
#[verifier::external_type_specification]
#[verifier::external_body]
pub struct ExAeadError(aes_gcm::Error);

/// Calls `Aead::encrypt` of `aes_gcm::Aes256Gcm` made from `key` (with
/// `KeyInit::new`). Trusted, as the crate's source shows: it fails exactly
/// where the plaintext is longer than `P_MAX` (2^36 bytes); otherwise the
/// ciphertext is as long as the plaintext plus the 16-byte tag, and is a
/// function of key, nonce and plaintext.
#[verifier::external_body]
fn aes256gcm_encrypt(key: &[u8; 32], nonce: &[u8; 12], plaintext: &[u8]) -> (r: Result<Vec<u8>, aes_gcm::Error>)
    ensures
        r is Ok <==> plaintext@.len() <= aead_max_plaintext(),
        r matches Ok(c) ==> c@ == aes256gcm_seal(key@, nonce@, plaintext@) && c@.len() == plaintext@.len() + 16,
{
    let cipher = aes_gcm::Aes256Gcm::new(key.into());
    cipher.encrypt(aes_gcm::Nonce::from_slice(nonce), plaintext)
}

/// Calls `Aead::decrypt` of `aes_gcm::Aes256Gcm` made from `key`. Trusted: the
/// result is a function of key, nonce and ciphertext; and, as the crate's
/// source shows (the tag is recomputed over the same ciphertext and the key
/// stream is applied again), what `encrypt` made from a plaintext with this
/// key and nonce decrypts to that plaintext.
#[verifier::external_body]
fn aes256gcm_decrypt(key: &[u8; 32], nonce: &[u8], ciphertext: &[u8]) -> (r: Result<Vec<u8>, aes_gcm::Error>)
    requires
        nonce@.len() == 12,
    ensures
        r matches Ok(p) ==> aes256gcm_open(key@, nonce@, ciphertext@) == Some(p@),
        r is Err ==> aes256gcm_open(key@, nonce@, ciphertext@) is None,
        r is Ok <== exists|p: Seq<u8>|
            p.len() <= aead_max_plaintext() && #[trigger] aes256gcm_seal(key@, nonce@, p) == ciphertext@,
        r matches Ok(q) ==> forall|p: Seq<u8>|
            p.len() <= aead_max_plaintext() && #[trigger] aes256gcm_seal(key@, nonce@, p) == ciphertext@ ==> q@ == p,
{
    let cipher = aes_gcm::Aes256Gcm::new(key.into());
    cipher.decrypt(aes_gcm::Nonce::from_slice(nonce), ciphertext)
}

/// Calls `ToString::to_string` on an `aes_gcm::Error`; its `Display` (in the
/// `aead` crate) writes the fixed text "aead::Error".
#[verifier::external_body]
fn aead_error_text(e: &aes_gcm::Error) -> (text: String)
    ensures
        text@ == "aead::Error"@,
{
    e.to_string()
}

/// Reads the system clock as the time since the Unix epoch: calls
/// `SystemTime::elapsed` on `UNIX_EPOCH`, which fails where the clock reads
/// before the epoch (then `None`). Nothing is promised of the value.
#[verifier::external_body]
fn time_since_epoch() -> (d: Option<std::time::Duration>) {
    match UNIX_EPOCH.elapsed() {
        Ok(d) => Some(d),
        Err(_) => None,
    }
}

/// Calls `Duration::as_secs`: the whole seconds of a duration. Nothing is
/// promised of the value (a duration is opaque here).
#[verifier::external_body]
fn whole_secs(d: &std::time::Duration) -> (secs: u64) {
    d.as_secs()
}

/// Whole seconds since the Unix epoch on the system clock; `None` where the
/// clock reads before the epoch.
fn unix_time_secs() -> (secs: Option<u64>) {
    match time_since_epoch() {
        Some(d) => Some(whole_secs(&d)),
        None => None,
    }
}

// ---------------------------------------------------------------------------
// The encryption engine

/// How long a key is used before it is rotated, in seconds.
pub const ROTATION_INTERVAL_SECS: u64 = 300;

/// The state of an encryption engine, as plain values.
pub struct EngineState {
    /// The current key.
    pub key: Seq<u8>,
    /// How many times the key was rotated.
    pub rotations: u64,
    /// How many messages were encrypted.
    pub messages: u64,
    /// When the key was last rotated (seconds since the epoch).
    pub last_rotation: u64,
    /// How long a key is used before rotation, in seconds.
    pub rotation_interval: u64,
}

/// AES-256-GCM encryption with a message counter as nonce and a key that is
/// replaced by a hash of itself once its rotation interval has passed.
pub struct CryptoEngine {
    current_key: [u8; 32],
    key_rotation_counter: u64,
    message_counter: u64,
    last_rotation: u64,
    rotation_interval: u64,
}

impl View for CryptoEngine {
    type V = EngineState;

    closed spec fn view(&self) -> EngineState {
        EngineState {
            key: self.current_key@,
            rotations: self.key_rotation_counter,
            messages: self.message_counter,
            last_rotation: self.last_rotation,
            rotation_interval: self.rotation_interval,
        }
    }
}

/// The key that follows `key` at rotation number `counter`, made at time `now`:
/// SHA-256 of the key, the counter and the time (little-endian).
pub open spec fn spec_next_key(key: Seq<u8>, counter: u64, now: u64) -> Seq<u8> {
    sha256_digest(key + spec_u64_to_le_bytes(counter) + spec_u64_to_le_bytes(now))
}

/// The seconds from `last` to `now`, as the engine measures them: the
/// subtraction wraps round where the clock went back.
pub open spec fn elapsed_secs(now: u64, last: u64) -> int {
    if now >= last {
        now - last
    } else {
        now - last + 0x1_0000_0000_0000_0000
    }
}

/// The key is due for rotation at time `now`.
pub open spec fn spec_rotation_due(s: EngineState, now: u64) -> bool {
    elapsed_secs(now, s.last_rotation) >= s.rotation_interval
}

/// The state after a key rotation at time `now`.
pub open spec fn spec_rotated(s: EngineState, now: u64) -> EngineState {
    EngineState {
        key: spec_next_key(s.key, (s.rotations + 1) as u64, now),
        rotations: (s.rotations + 1) as u64,
        last_rotation: now,
        ..s
    }
}

/// The state in which a message is encrypted at time `now`: rotated first
/// where the rotation is due, and with the message counted.
pub open spec fn spec_encrypting_state(s: EngineState, now: u64) -> EngineState {
    let t = if spec_rotation_due(s, now) { spec_rotated(s, now) } else { s };
    EngineState { messages: (t.messages + 1) as u64, ..t }
}

/// The nonce of message number `counter`: the counter in little-endian,
/// followed by four zero bytes.
pub open spec fn spec_nonce(counter: u64) -> Seq<u8> {
    spec_u64_to_le_bytes(counter) + seq![0u8, 0u8, 0u8, 0u8]
}

/// The encrypted message for `plaintext` in state `s` (the state after the
/// message was counted): the nonce followed by the AES-GCM ciphertext.
pub open spec fn spec_sealed(s: EngineState, plaintext: Seq<u8>) -> Seq<u8> {
    sealed_with(s.key, s.messages, plaintext)
}

/// The encrypted message for `plaintext` under `key` as message number `counter`.
pub open spec fn sealed_with(key: Seq<u8>, counter: u64, plaintext: Seq<u8>) -> Seq<u8> {
    spec_nonce(counter) + aes256gcm_seal(key, spec_nonce(counter), plaintext)
}

/// The plaintext of an encrypted message under the key of `s`, where its first
/// twelve bytes are the nonce and the rest authenticates.
pub open spec fn spec_opened(s: EngineState, data: Seq<u8>) -> Option<Seq<u8>> {
    if data.len() < 12 {
        None
    } else {
        aes256gcm_open(s.key, data.take(12), data.skip(12))
    }
}

/// Law: an engine never uses a nonce twice. Each encryption counts one more
/// message, and its nonce differs from the nonce of every message counted
/// before.
pub proof fn lemma_fresh_nonce(s: EngineState, now: u64, earlier: u64)
    requires
        s.messages < u64::MAX,
        earlier <= s.messages,
    ensures
        spec_encrypting_state(s, now).messages == s.messages + 1,
        spec_nonce(spec_encrypting_state(s, now).messages) != spec_nonce(earlier),
{
    vstd::bytes::lemma_auto_spec_u64_to_from_le_bytes();
    let next = spec_encrypting_state(s, now).messages;
    if spec_nonce(next) == spec_nonce(earlier) {
        assert(spec_nonce(next).take(8) =~= spec_u64_to_le_bytes(next));
        assert(spec_nonce(earlier).take(8) =~= spec_u64_to_le_bytes(earlier));
    }
}

/// The engine state after one encryption at each of `times`, in order.
pub open spec fn spec_encrypting_many(s: EngineState, times: Seq<u64>) -> EngineState
    decreases times.len(),
{
    if times.len() == 0 {
        s
    } else {
        spec_encrypting_state(spec_encrypting_many(s, times.drop_last()), times.last())
    }
}

/// The nonce of the message encrypted at `times[i]` in such a run: the
/// nonce that `spec_sealed` puts in front of it.
pub open spec fn nonce_of_call(s: EngineState, times: Seq<u64>, i: int) -> Seq<u8> {
    spec_nonce(spec_encrypting_many(s, times.take(i + 1)).messages)
}

proof fn lemma_messages_counted(s: EngineState, times: Seq<u64>)
    requires
        s.messages + times.len() <= u64::MAX,
    ensures
        spec_encrypting_many(s, times).messages == s.messages + times.len(),
    decreases times.len(),
{
    if times.len() > 0 {
        lemma_messages_counted(s, times.drop_last());
    }
}

/// Law: in any run of encryptions by one engine, whether or not the key is
/// rotated in between, no two messages share a nonce.
pub proof fn lemma_nonces_distinct(s: EngineState, times: Seq<u64>, i: int, j: int)
    requires
        s.messages + times.len() <= u64::MAX,
        0 <= i < j < times.len(),
    ensures
        nonce_of_call(s, times, i) != nonce_of_call(s, times, j),
{
    vstd::bytes::lemma_auto_spec_u64_to_from_le_bytes();
    lemma_messages_counted(s, times.take(i + 1));
    lemma_messages_counted(s, times.take(j + 1));
    let a = spec_encrypting_many(s, times.take(i + 1)).messages;
    let b = spec_encrypting_many(s, times.take(j + 1)).messages;
    assert(a != b);
    if spec_nonce(a) == spec_nonce(b) {
        assert(spec_nonce(a).take(8) =~= spec_u64_to_le_bytes(a));
        assert(spec_nonce(b).take(8) =~= spec_u64_to_le_bytes(b));
    }
}

/// Law: after a rotation at `now`, the new key is due for rotation at a
/// later time exactly when the rotation interval has passed since `now`.
pub proof fn lemma_rotation_restarts_interval(s: EngineState, now: u64, later: u64)
    requires
        s.rotations < u64::MAX,
        now <= later,
    ensures
        spec_rotation_due(spec_rotated(s, now), later) <==> later - now >= s.rotation_interval,
{
}

/// The error `encrypt` gives where the system clock cannot be read.
pub open spec fn clock_error_text() -> Seq<char> {
    "System clock reads before the Unix epoch"@
}

/// A result of encryption as plain values.
pub open spec fn result_bytes(r: Result<Vec<u8>, String>) -> Result<Seq<u8>, Seq<char>> {
    match r {
        Ok(c) => Ok(c@),
        Err(m) => Err(m@),
    }
}

/// Encrypting `plaintext` at time `now` in state `s` leaves state `after`
/// and gives `r`: the message is counted (after a rotation where one is due);
/// it succeeds exactly where the plaintext is within AES-GCM's limit, with
/// the nonce and ciphertext (12 + length + 16 bytes), and otherwise fails
/// with "Encryption failed: aead::Error".
pub open spec fn spec_encrypted(
    s: EngineState,
    now: u64,
    plaintext: Seq<u8>,
    after: EngineState,
    r: Result<Seq<u8>, Seq<char>>,
) -> bool {
    &&& after == spec_encrypting_state(s, now)
    &&& (r is Ok <==> plaintext.len() <= aead_max_plaintext())
    &&& (r matches Ok(c) ==> c == spec_sealed(after, plaintext) && c.len() == 12 + plaintext.len() + 16)
    &&& (r matches Ok(c) ==> c.take(12) == spec_u64_to_le_bytes(after.messages) + seq![0u8, 0u8, 0u8, 0u8]
        && c.skip(12) == aes256gcm_seal(after.key, c.take(12), plaintext))
    &&& (r matches Err(m) ==> m == "Encryption failed: "@ + "aead::Error"@)
}

fn concat3(a: &[u8], b: &[u8], c: &[u8]) -> (r: Vec<u8>)
    ensures
        r@ == a@ + b@ + c@,
{
    let mut v: Vec<u8> = Vec::new();
    v.extend_from_slice(a);
    v.extend_from_slice(b);
    v.extend_from_slice(c);
    assert(v@ =~= a@ + b@ + c@);
    v
}

impl CryptoEngine {
    /// An engine with `initial_key`, no rotations or messages yet, whose last
    /// rotation is `now`.
    pub fn new_at(initial_key: &[u8; 32], now: u64) -> (e: Self)
        ensures
            e@ == (EngineState {
                key: initial_key@,
                rotations: 0,
                messages: 0,
                last_rotation: now,
                rotation_interval: ROTATION_INTERVAL_SECS,
            }),
    {
        CryptoEngine {
            current_key: *initial_key,
            key_rotation_counter: 0,
            message_counter: 0,
            last_rotation: now,
            rotation_interval: ROTATION_INTERVAL_SECS,
        }
    }

    /// An engine with `initial_key` whose last rotation is the current time;
    /// `None` where the system clock reads before the Unix epoch.
    pub fn new(initial_key: &[u8; 32]) -> (e: Option<Self>)
        ensures
            e matches Some(engine) ==> exists|now: u64| engine@ == (EngineState {
                key: initial_key@,
                rotations: 0,
                messages: 0,
                last_rotation: now,
                rotation_interval: ROTATION_INTERVAL_SECS,
            }),
    {
        match unix_time_secs() {
            Some(now) => Some(Self::new_at(initial_key, now)),
            None => None,
        }
    }

    /// Replaces the key by the hash of the key, the rotation counter and the
    /// time `now`; returns the new key.
    pub fn rotate_key_at(&mut self, now: u64) -> (key: [u8; 32])
        requires
            old(self)@.rotations < u64::MAX,
        ensures
            final(self)@ == spec_rotated(old(self)@, now),
            key@ == final(self)@.key,
            key@ == sha256_digest(old(self)@.key + spec_u64_to_le_bytes((old(self)@.rotations + 1) as u64)
                + spec_u64_to_le_bytes(now)),
    {
        self.key_rotation_counter = self.key_rotation_counter + 1;
        let counter_bytes = u64_to_le_bytes(self.key_rotation_counter);
        let now_bytes = u64_to_le_bytes(now);
        let material = concat3(&self.current_key, counter_bytes.as_slice(), now_bytes.as_slice());
        let new_key = sha256(material.as_slice());
        self.current_key = new_key;
        self.last_rotation = now;
        new_key
    }

    /// Rotates the key at the current time; returns the new key. Where the
    /// system clock reads before the Unix epoch, nothing changes and the
    /// result is `None`.
    pub fn rotate_key(&mut self) -> (key: Option<[u8; 32]>)
        requires
            old(self)@.rotations < u64::MAX,
        ensures
            key is None ==> *final(self) == *old(self),
            key matches Some(k) ==> k@ == final(self)@.key
                && exists|now: u64| final(self)@ == spec_rotated(old(self)@, now),
    {
        match unix_time_secs() {
            Some(now) => Some(self.rotate_key_at(now)),
            None => None,
        }
    }

    /// Whether the rotation interval has passed at time `now`.
    pub fn should_rotate_key_at(&self, now: u64) -> (due: bool)
        ensures
            due == spec_rotation_due(self@, now),
    {
        now.wrapping_sub(self.last_rotation) >= self.rotation_interval
    }

    /// Whether the rotation interval has passed at the current time; `None`
    /// where the system clock reads before the Unix epoch.
    pub fn should_rotate_key(&self) -> (due: Option<bool>)
        ensures
            due matches Some(d) ==> exists|now: u64| d == spec_rotation_due(self@, now),
    {
        match unix_time_secs() {
            Some(now) => Some(self.should_rotate_key_at(now)),
            None => None,
        }
    }

    /// Encrypts `plaintext` at time `now`: rotates the key first where the
    /// rotation is due, counts the message, and returns the nonce (the
    /// message counter) followed by the AES-GCM ciphertext. Fails, with the
    /// message "Encryption failed: aead::Error", exactly where the
    /// plaintext is longer than AES-GCM allows.
    pub fn encrypt_at(&mut self, plaintext: &[u8], now: u64) -> (r: Result<Vec<u8>, String>)
        requires
            old(self)@.rotations < u64::MAX,
            old(self)@.messages < u64::MAX,
        ensures
            final(self)@ == spec_encrypting_state(old(self)@, now),
            r is Ok <==> plaintext@.len() <= aead_max_plaintext(),
            r matches Ok(c) ==> c@ == spec_sealed(final(self)@, plaintext@),
            r matches Ok(c) ==> c@.len() == 12 + plaintext@.len() + 16,
            r matches Ok(c) ==> c@.take(12) == spec_u64_to_le_bytes(final(self)@.messages) + seq![0u8, 0u8, 0u8, 0u8],
            r matches Ok(c) ==> c@.skip(12) == aes256gcm_seal(final(self)@.key, c@.take(12), plaintext@),
            final(self)@.messages == old(self)@.messages + 1,
            final(self)@.key == if spec_rotation_due(old(self)@, now) {
                sha256_digest(old(self)@.key + spec_u64_to_le_bytes((old(self)@.rotations + 1) as u64) + spec_u64_to_le_bytes(now))
            } else {
                old(self)@.key
            },
            r matches Err(m) ==> m@ == "Encryption failed: "@ + "aead::Error"@,
    {
        if self.should_rotate_key_at(now) {
            self.rotate_key_at(now);
        }
        self.message_counter = self.message_counter + 1;
        let counter_bytes = u64_to_le_bytes(self.message_counter);
        let mut nonce_bytes = [0u8; 12];
        let mut i: usize = 0;
        while i < 8
            invariant
                i <= 8,
                counter_bytes@.len() == 8,
                nonce_bytes@.len() == 12,
                forall|j: int| 0 <= j < i ==> nonce_bytes@[j] == counter_bytes@[j],
                forall|j: int| 8 <= j < 12 ==> nonce_bytes@[j] == 0,
            decreases 8 - i,
        {
            nonce_bytes[i] = counter_bytes[i];
            i += 1;
        }
        assert(nonce_bytes@ =~= spec_nonce(self.message_counter));
        match aes256gcm_encrypt(&self.current_key, &nonce_bytes, plaintext) {
            Ok(ciphertext) => {
                let mut result: Vec<u8> = Vec::new();
                result.extend_from_slice(&nonce_bytes);
                result.extend_from_slice(ciphertext.as_slice());
                assert(result@ =~= nonce_bytes@ + ciphertext@);
                assert(result@.take(12) =~= nonce_bytes@);
                assert(result@.skip(12) =~= ciphertext@);
                Ok(result)
            },
            Err(e) => {
                let mut message = String::from_str("Encryption failed: ");
                message.append(aead_error_text(&e).as_str());
                Err(message)
            },
        }
    }

    /// Encrypts `plaintext` at the current time (see `encrypt_at`). Where the
    /// system clock reads before the Unix epoch, nothing changes and the
    /// result is an error saying so.
    pub fn encrypt(&mut self, plaintext: &[u8]) -> (r: Result<Vec<u8>, String>)
        requires
            old(self)@.rotations < u64::MAX,
            old(self)@.messages < u64::MAX,
        ensures
            (*final(self) == *old(self) && result_bytes(r) == Err::<Seq<u8>, Seq<char>>(clock_error_text()))
                || exists|now: u64| spec_encrypted(old(self)@, now, plaintext@, final(self)@, result_bytes(r)),
    {
        match unix_time_secs() {
            Some(now) => {
                let r = self.encrypt_at(plaintext, now);
                assert(spec_encrypted(old(self)@, now, plaintext@, self@, result_bytes(r)));
                r
            },
            None => Err(String::from_str("System clock reads before the Unix epoch")),
        }
    }

    /// Decrypts a message made by `encrypt`: its first twelve bytes are the
    /// nonce, the rest the ciphertext. Fails with "Invalid encrypted data
    /// length" where there are fewer than twelve bytes, and with "Decryption
    /// failed: aead::Error" where the ciphertext does not
    /// authenticate under the current key. A message that `encrypt` made from
    /// a plaintext with the current key and its own counter decrypts to that
    /// plaintext.
    pub fn decrypt(&mut self, encrypted_data: &[u8]) -> (r: Result<Vec<u8>, String>)
        ensures
            *final(self) == *old(self),
            match r {
                Ok(p) => spec_opened(old(self)@, encrypted_data@) == Some(p@),
                Err(m) => spec_opened(old(self)@, encrypted_data@) is None && if encrypted_data@.len() < 12 {
                    m@ == "Invalid encrypted data length"@
                } else {
                    m@ == "Decryption failed: "@ + "aead::Error"@
                },
            },
            forall|counter: u64, p: Seq<u8>|
                p.len() <= aead_max_plaintext()
                && encrypted_data@ == #[trigger] sealed_with(old(self)@.key, counter, p)
                ==> (r matches Ok(q) && q@ == p),
            r matches Ok(p) ==> encrypted_data@.len() >= 12
                && aes256gcm_open(old(self)@.key, encrypted_data@.take(12), encrypted_data@.skip(12)) == Some(p@),
            r is Err && encrypted_data@.len() >= 12
                ==> aes256gcm_open(old(self)@.key, encrypted_data@.take(12), encrypted_data@.skip(12)) is None,
    {
        if encrypted_data.len() < 12 {
            proof {
                assert forall|counter: u64, p: Seq<u8>|
                    p.len() <= aead_max_plaintext()
                    && encrypted_data@ == #[trigger] sealed_with(self@.key, counter, p)
                    implies false by {
                    vstd::bytes::lemma_auto_spec_u64_to_from_le_bytes();
                }
            }
            return Err(String::from_str("Invalid encrypted data length"));
        }
        let nonce = slice_subrange(encrypted_data, 0, 12);
        let ciphertext = slice_subrange(encrypted_data, 12, encrypted_data.len());
        assert(nonce@ == encrypted_data@.take(12));
        assert(ciphertext@ == encrypted_data@.skip(12));
        proof {
            assert forall|counter: u64, p: Seq<u8>|
                p.len() <= aead_max_plaintext()
                && encrypted_data@ == #[trigger] sealed_with(self@.key, counter, p)
                implies aes256gcm_seal(self@.key, nonce@, p) == ciphertext@ && p.len() <= aead_max_plaintext() by {
                vstd::bytes::lemma_auto_spec_u64_to_from_le_bytes();
                let n = spec_nonce(counter);
                assert(n.len() == 12);
                assert(encrypted_data@.take(12) =~= n);
                assert(encrypted_data@.skip(12) =~= aes256gcm_seal(self@.key, n, p));
            }
        }
        match aes256gcm_decrypt(&self.current_key, nonce, ciphertext) {
            Ok(plaintext) => Ok(plaintext),
            Err(e) => {
                let mut message = String::from_str("Decryption failed: ");
                message.append(aead_error_text(&e).as_str());
                Err(message)
            },
        }
    }

    /// Whether the counters leave room for another encryption, which counts
    /// the message and may count a rotation (both counters are 64-bit).
    pub fn can_encrypt(&self) -> (b: bool)
        ensures
            b == (self@.rotations < u64::MAX && self@.messages < u64::MAX),
    {
        self.key_rotation_counter < u64::MAX && self.message_counter < u64::MAX
    }

    /// The current key.
    pub fn get_current_key(&self) -> (key: [u8; 32])
        ensures
            key@ == self@.key,
    {
        self.current_key
    }
}

// ---------------------------------------------------------------------------
// Key exchange

/// The key pair of the simple key exchange: a random private key and the
/// public key derived from it by hashing.
pub struct KeyExchange {
    private_key: [u8; 32],
    public_key: [u8; 32],
}

/// The public key that belongs to a private key: SHA-256 of the private key
/// followed by the public-key salt.
pub open spec fn spec_public_key(private_key: Seq<u8>) -> Seq<u8> {
    sha256_digest(private_key + "gilma-public-key-salt".spec_bytes())
}

/// The shared key derived from a private key and the peer's public key:
/// SHA-256 of the private key, the peer key and the shared-key salt.
pub open spec fn spec_shared_key(private_key: Seq<u8>, peer_public_key: Seq<u8>) -> Seq<u8> {
    sha256_digest(private_key + peer_public_key + "gilma-shared-key-salt".spec_bytes())
}

impl KeyExchange {
    /// The private key (hidden from callers).
    pub closed spec fn private_key(&self) -> Seq<u8> {
        self.private_key@
    }

    /// The public key.
    pub closed spec fn spec_public(&self) -> Seq<u8> {
        self.public_key@
    }

    /// The key pair is consistent: the public key is derived from the private key.
    pub closed spec fn well_formed(&self) -> bool {
        self.public_key@ == spec_public_key(self.private_key@)
    }

    /// A fresh key pair from a random private key; `None` where the operating
    /// system's random source fails.
    pub fn new() -> (kx: Option<Self>)
        ensures
            kx matches Some(k) ==> k.private_key().len() == 32
                && k.spec_public() == spec_public_key(k.private_key())
                && k.spec_public() == sha256_digest(k.private_key() + "gilma-public-key-salt".spec_bytes())
                && k.well_formed(),
    {
        match random_key() {
            Some(private_key) => Some(Self::from_private_key(private_key)),
            None => None,
        }
    }

    /// The key pair whose private key is `private_key`.
    pub fn from_private_key(private_key: [u8; 32]) -> (kx: Self)
        ensures
            kx.private_key() == private_key@,
            kx.spec_public() == spec_public_key(private_key@),
            kx.spec_public() == sha256_digest(private_key@ + "gilma-public-key-salt".spec_bytes()),
            kx.well_formed(),
    {
        let mut material: Vec<u8> = Vec::new();
        material.extend_from_slice(&private_key);
        material.extend_from_slice("gilma-public-key-salt".as_bytes());
        let public_key = sha256(material.as_slice());
        assert(material@ =~= private_key@ + "gilma-public-key-salt".spec_bytes());
        KeyExchange { private_key, public_key }
    }

    /// The public key, to be sent to the peer.
    pub fn get_public_key(&self) -> (key: [u8; 32])
        ensures
            key@ == self.spec_public(),
    {
        self.public_key
    }

    /// The key shared with the owner of `peer_public_key`.
    pub fn derive_shared_key(&self, peer_public_key: &[u8; 32]) -> (key: [u8; 32])
        ensures
            key@ == spec_shared_key(self.private_key(), peer_public_key@),
            key@ == sha256_digest(self.private_key() + peer_public_key@ + "gilma-shared-key-salt".spec_bytes()),
    {
        let mut material: Vec<u8> = Vec::new();
        material.extend_from_slice(&self.private_key);
        material.extend_from_slice(peer_public_key);
        material.extend_from_slice("gilma-shared-key-salt".as_bytes());
        let key = sha256(material.as_slice());
        assert(material@ =~= self.private_key@ + peer_public_key@ + "gilma-shared-key-salt".spec_bytes());
        key
    }
}

/// Law: a public key is the SHA-256 digest of exactly the private key's
/// bytes, in order, followed by the public-key salt: the first 32 bytes of
/// the hashed material are the private key and the rest is the salt.
pub proof fn lemma_public_key_material(private_key: Seq<u8>)
    requires
        private_key.len() == 32,
    ensures
        spec_public_key(private_key) == sha256_digest(private_key + "gilma-public-key-salt".spec_bytes()),
        (private_key + "gilma-public-key-salt".spec_bytes()).take(32) == private_key,
{
    assert((private_key + "gilma-public-key-salt".spec_bytes()).take(32) =~= private_key);
}

/// Law: a shared key is the SHA-256 digest of the private key, then the
/// peer's public key byte for byte in its own order, then the shared-key
/// salt.
pub proof fn lemma_shared_key_material(private_key: Seq<u8>, peer_public_key: Seq<u8>)
    requires
        private_key.len() == 32,
        peer_public_key.len() == 32,
    ensures
        spec_shared_key(private_key, peer_public_key)
            == sha256_digest(private_key + peer_public_key + "gilma-shared-key-salt".spec_bytes()),
        (private_key + peer_public_key + "gilma-shared-key-salt".spec_bytes()).take(32) == private_key,
        (private_key + peer_public_key + "gilma-shared-key-salt".spec_bytes()).subrange(32, 64) == peer_public_key,
{
    let m = private_key + peer_public_key + "gilma-shared-key-salt".spec_bytes();
    assert(m.take(32) =~= private_key);
    assert(m.subrange(32, 64) =~= peer_public_key);
}

/// Law: the key that one side derives from the other side's public key is
/// the digest of its own private key, then the digest of the other private
/// key with the public-key salt, then the shared-key salt.
pub proof fn lemma_exchange_from_private_keys(own_private_key: Seq<u8>, peer_private_key: Seq<u8>)
    requires
        own_private_key.len() == 32,
        peer_private_key.len() == 32,
    ensures
        spec_shared_key(own_private_key, spec_public_key(peer_private_key)) == sha256_digest(
            own_private_key + sha256_digest(peer_private_key + "gilma-public-key-salt".spec_bytes())
                + "gilma-shared-key-salt".spec_bytes(),
        ),
{
}

/// Law: a rotated key is the SHA-256 digest of the old key, then the new
/// rotation count and the time, each as 8 little-endian bytes.
pub proof fn lemma_next_key_material(s: EngineState, now: u64)
    ensures
        spec_rotated(s, now).key == sha256_digest(
            s.key + spec_u64_to_le_bytes((s.rotations + 1) as u64) + spec_u64_to_le_bytes(now),
        ),
        spec_rotated(s, now).rotations == (s.rotations + 1) as u64,
        spec_rotated(s, now).last_rotation == now,
        spec_rotated(s, now).messages == s.messages,
{
}

/// Law: a sealed message is the 12-byte nonce (the counter in 8
/// little-endian bytes, then four zero bytes) followed by the AES-256-GCM
/// encryption of the plaintext under the key itself, with that nonce.
pub proof fn lemma_sealed_layout(key: Seq<u8>, counter: u64, plaintext: Seq<u8>)
    ensures
        sealed_with(key, counter, plaintext).take(12) == spec_u64_to_le_bytes(counter) + seq![0u8, 0u8, 0u8, 0u8],
        sealed_with(key, counter, plaintext).skip(12) == aes256gcm_seal(
            key,
            spec_u64_to_le_bytes(counter) + seq![0u8, 0u8, 0u8, 0u8],
            plaintext,
        ),
{
    vstd::bytes::lemma_auto_spec_u64_to_from_le_bytes();
    let n = spec_u64_to_le_bytes(counter) + seq![0u8, 0u8, 0u8, 0u8];
    assert(sealed_with(key, counter, plaintext).take(12) =~= n);
    assert(sealed_with(key, counter, plaintext).skip(12) =~= aes256gcm_seal(key, n, plaintext));
}

/// Law: what an engine with some key seals is opened, by an engine holding
/// the same key, with AES-256-GCM decryption under that very key, of the
/// same nonce and ciphertext.
pub proof fn lemma_open_sealed(s: EngineState, counter: u64, plaintext: Seq<u8>)
    ensures
        spec_opened(s, sealed_with(s.key, counter, plaintext)) == aes256gcm_open(
            s.key,
            spec_u64_to_le_bytes(counter) + seq![0u8, 0u8, 0u8, 0u8],
            aes256gcm_seal(s.key, spec_u64_to_le_bytes(counter) + seq![0u8, 0u8, 0u8, 0u8], plaintext),
        ),
{
    lemma_sealed_layout(s.key, counter, plaintext);
    vstd::bytes::lemma_auto_spec_u64_to_from_le_bytes();
}

/// Law: a rotation is due when at least the interval has passed since the
/// last rotation; where the clock reads earlier than the last rotation, the
/// difference wraps round 2^64.
pub proof fn lemma_rotation_due_rule(s: EngineState, now: u64)
    ensures
        spec_rotation_due(s, now) == if now >= s.last_rotation {
            now - s.last_rotation >= s.rotation_interval
        } else {
            now + 0x1_0000_0000_0000_0000 - s.last_rotation >= s.rotation_interval
        },
{
}

} // verus!

