//! The framing of encrypted messages on a stream: each message is a 4-byte
//! little-endian length followed by that many bytes of ciphertext; a line is
//! sent as its UTF-8 bytes and a newline.

use vstd::prelude::*;
use vstd::bytes::{spec_u32_from_le_bytes, spec_u32_to_le_bytes, u32_from_le_bytes, u32_to_le_bytes};
use vstd::string::StringSliceAdditionalSpecFns;
use vstd::utf8::{decode_utf8, encode_utf8, valid_utf8};
use crate::crypto::{aead_max_plaintext, spec_encrypting_state, spec_opened, spec_sealed, sealed_with, CryptoEngine};
use crate::text::{chars_of, string_from_chars, trim_end_char, trim_end_char_range};

verus! {

/// What `String::from_utf8_lossy` gives for a byte sequence.
pub uninterp spec fn utf8_lossy_text(bytes: Seq<u8>) -> Seq<char>;

/// Calls `String::from_utf8_lossy` and takes the string. Trusted, as its
/// documentation says: valid UTF-8 is decoded as it stands (the result is
/// otherwise only named: invalid sequences become U+FFFD).
#[verifier::external_body]
fn utf8_lossy(bytes: &[u8]) -> (s: String)
    ensures
        s@ == utf8_lossy_text(bytes@),
        valid_utf8(bytes@) ==> s@ == decode_utf8(bytes@),
{
    String::from_utf8_lossy(bytes).into_owned()
}

/// A frame: the payload's length as a 4-byte little-endian number (cut to 32
/// bits), then the payload.
pub open spec fn spec_frame(payload: Seq<u8>) -> Seq<u8> {
    spec_u32_to_le_bytes(payload.len() as u32) + payload
}

/// The bytes `write_line` encrypts for a line: the line and a newline.
pub open spec fn spec_line_payload(line: Seq<char>) -> Seq<u8> {
    encode_utf8(line.push('\n'))
}

/// What `read_line` makes of decrypted bytes: the text, read leniently as
/// UTF-8, without its trailing newlines.
pub open spec fn spec_line_text(plaintext: Seq<u8>) -> Seq<char> {
    trim_end_char(utf8_lossy_text(plaintext), '\n')
}

/// Frames a payload for the stream.
pub fn frame(payload: &[u8]) -> (bytes: Vec<u8>)
    ensures
        bytes@ == spec_frame(payload@),
{
    #[verifier::truncate]
    let len = payload.len() as u32;
    let mut bytes = u32_to_le_bytes(len);
    bytes.extend_from_slice(payload);
    assert(bytes@ =~= spec_frame(payload@));
    bytes
}

/// The payload length that a 4-byte frame header announces.
pub fn frame_length(header: &[u8]) -> (len: usize)
    requires
        header@.len() == 4,
    ensures
        len == spec_u32_from_le_bytes(header@),
{
    u32_from_le_bytes(header) as usize
}

/// Law: the header of a frame announces the payload's length, wherever the
/// length fits in 32 bits.
pub proof fn lemma_frame_header(payload: Seq<u8>)
    requires
        payload.len() <= u32::MAX,
    ensures
        spec_frame(payload).len() == payload.len() + 4,
        spec_u32_from_le_bytes(spec_frame(payload).take(4)) == payload.len(),
        spec_frame(payload).skip(4) == payload,
{
    vstd::bytes::lemma_auto_spec_u32_to_from_le_bytes();
    let h = spec_u32_to_le_bytes(payload.len() as u32);
    assert(spec_frame(payload).take(4) =~= h);
    assert(spec_frame(payload).skip(4) =~= payload);
}

proof fn lemma_encode_push_newline(line: Seq<char>)
    ensures
        encode_utf8(line.push('\n')) == encode_utf8(line).push(10u8),
    decreases line.len(),
{
    if line.len() == 0 {
        assert(line.push('\n').drop_first() =~= Seq::<char>::empty());
        assert('\n' as u32 == 10);
        assert((10u32 & 0x7F) == 10) by (bit_vector);
        assert(vstd::utf8::leading_byte_width_1(10u32) == 10u8);
        assert(encode_utf8(Seq::<char>::empty()) =~= Seq::<u8>::empty());
        assert(line.push('\n')[0] == '\n');
        assert(vstd::utf8::encode_scalar(10u32) =~= seq![10u8]);
        assert(encode_utf8(line.push('\n')) =~= seq![10u8]);
    } else {
        lemma_encode_push_newline(line.drop_first());
        assert(line.push('\n').drop_first() =~= line.drop_first().push('\n'));
        assert(line.push('\n')[0] == line[0]);
    }
}

/// The bytes of a line and a newline.
pub fn line_payload(line: &str) -> (bytes: Vec<u8>)
    ensures
        bytes@ == spec_line_payload(line@),
{
    let mut bytes: Vec<u8> = Vec::new();
    bytes.extend_from_slice(line.as_bytes());
    bytes.push(10u8);
    proof {
        lemma_encode_push_newline(line@);
        assert(bytes@ =~= encode_utf8(line@).push(10u8));
    }
    bytes
}

/// Encrypts `data` with `crypto` at time `now` and frames it: what
/// `write_bytes` sends. The frame is the 4-byte length, the 12-byte nonce,
/// the ciphertext and the 16-byte tag.
pub fn seal_bytes(crypto: &mut CryptoEngine, data: &[u8], now: u64) -> (r: Result<Vec<u8>, String>)
    requires
        old(crypto)@.rotations < u64::MAX,
        old(crypto)@.messages < u64::MAX,
    ensures
        final(crypto)@ == spec_encrypting_state(old(crypto)@, now),
        r is Ok <==> data@.len() <= aead_max_plaintext(),
        r matches Ok(bytes) ==> bytes@ == spec_frame(spec_sealed(final(crypto)@, data@))
            && bytes@.len() == 4 + 12 + data@.len() + 16,
        r matches Err(m) ==> m@ == "Encryption failed: "@ + "aead::Error"@,
{
    match crypto.encrypt_at(data, now) {
        Ok(encrypted) => {
            proof { vstd::bytes::lemma_auto_spec_u32_to_from_le_bytes(); }
            Ok(frame(encrypted.as_slice()))
        },
        Err(m) => Err(m),
    }
}

/// Encrypts a line and a newline at time `now` and frames them: what
/// `write_line` sends.
pub fn seal_line(crypto: &mut CryptoEngine, line: &str, now: u64) -> (r: Result<Vec<u8>, String>)
    requires
        old(crypto)@.rotations < u64::MAX,
        old(crypto)@.messages < u64::MAX,
    ensures
        final(crypto)@ == spec_encrypting_state(old(crypto)@, now),
        r is Ok <==> spec_line_payload(line@).len() <= aead_max_plaintext(),
        r matches Ok(bytes) ==> bytes@ == spec_frame(spec_sealed(final(crypto)@, spec_line_payload(line@)))
            && bytes@.len() == 4 + 12 + spec_line_payload(line@).len() + 16,
        r matches Err(m) ==> m@ == "Encryption failed: "@ + "aead::Error"@,
{
    let payload = line_payload(line);
    seal_bytes(crypto, payload.as_slice(), now)
}

/// Decrypts a frame's payload and reads it as a line: what `read_line`
/// returns. A payload that `seal_line` made from a line with the current key
/// gives the line back, without the newlines at its end.
pub fn open_line(crypto: &mut CryptoEngine, encrypted: &[u8]) -> (r: Result<String, String>)
    ensures
        *final(crypto) == *old(crypto),
        r matches Ok(line) ==> exists|p: Seq<u8>|
            spec_opened(old(crypto)@, encrypted@) == Some(p) && line@ == spec_line_text(p),
        r is Err <==> spec_opened(old(crypto)@, encrypted@) is None,
        forall|counter: u64, line: Seq<char>|
            spec_line_payload(line).len() <= aead_max_plaintext()
            && encrypted@ == #[trigger] sealed_with(old(crypto)@.key, counter, spec_line_payload(line))
            ==> (r matches Ok(text) && text@ == trim_end_char(line, '\n')),
{
    match crypto.decrypt(encrypted) {
        Ok(plaintext) => {
            let text = utf8_lossy(plaintext.as_slice());
            let cs = chars_of(text.as_str());
            let end = trim_end_char_range(cs.as_slice(), 0, cs.len(), '\n');
            let line = string_from_chars(vstd::slice::slice_subrange(cs.as_slice(), 0, end));
            assert(cs@.subrange(0, cs@.len() as int) =~= cs@);
            proof {
                assert forall|counter: u64, l: Seq<char>|
                    spec_line_payload(l).len() <= aead_max_plaintext()
                    && encrypted@ == #[trigger] sealed_with(old(crypto)@.key, counter, spec_line_payload(l))
                    implies line@ == trim_end_char(l, '\n') by {
                    vstd::utf8::encode_utf8_valid_utf8(l.push('\n'));
                    vstd::utf8::encode_utf8_decode_utf8(l.push('\n'));
                    lemma_trim_newline(l);
                }
            }
            assert(line@ == spec_line_text(plaintext@));
            Ok(line)
        },
        Err(m) => Err(m),
    }
}

proof fn lemma_trim_newline(line: Seq<char>)
    ensures
        trim_end_char(line.push('\n'), '\n') == trim_end_char(line, '\n'),
{
    assert(line.push('\n').drop_last() =~= line);
}

} // verus!
