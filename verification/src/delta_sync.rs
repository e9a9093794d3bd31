//! Chunk-level delta synchronisation: a file is cut into chunks of
//! `CHUNK_SIZE` bytes, each named by its BLAKE3 checksum; a delta says which
//! chunks of the old file to keep, which to replace or add, and which to drop.

use vstd::prelude::*;
use vstd::slice::{slice_subrange, slice_to_vec};
use std::collections::HashMap;
use crate::text::{
    all_digits, chars_of, decimal, lemma_parse_decimal, lemma_split_char_append, lemma_split_char_none,
    lemma_split_join, join_with, parse_usize, parse_usize_spec, push_decimal, split_char, split_ranges,
    string_from_chars,
};

verus! {

/// What BLAKE3 gives for a message (32 bytes).
pub uninterp spec fn blake3_digest(data: Seq<u8>) -> Seq<u8>;

/// A lower-case hexadecimal digit.
pub open spec fn hex_digit(n: nat) -> char {
    if n < 10 {
        (n + 48) as char
    } else {
        (n + 87) as char
    }
}

/// Bytes written as lower-case hexadecimal, two digits per byte, high nibble first.
pub open spec fn lower_hex(bytes: Seq<u8>) -> Seq<char>
    decreases bytes.len(),
{
    if bytes.len() == 0 {
        Seq::empty()
    } else {
        lower_hex(bytes.drop_last()) + seq![
            hex_digit((bytes.last() / 16) as nat),
            hex_digit((bytes.last() % 16) as nat),
        ]
    }
}

/// The checksum of a chunk: its BLAKE3 digest in lower-case hexadecimal.
pub open spec fn spec_checksum(data: Seq<u8>) -> Seq<char> {
    lower_hex(blake3_digest(data))
}

/// Calls `blake3::hash` and formats the hash with its `Display`, which writes
/// `Hash::to_hex`: the 32 digest bytes as 64 lower-case hexadecimal digits.
/// Trusted: the digest is a function of `data` alone.
#[verifier::external_body]
fn blake3_checksum(data: &[u8]) -> (text: String)
    ensures
        text@ == lower_hex(blake3_digest(data@)),
        text@.len() == 64,
{
    blake3::hash(data).to_string()
}

/// One chunk of a file: its position, checksum, length and bytes.
pub struct ChunkInfo {
    pub index: usize,
    pub checksum: String,
    pub size: usize,
    pub data: Vec<u8>,
}

/// A chunk as plain values.
pub struct ChunkView {
    pub index: usize,
    pub checksum: Seq<char>,
    pub size: usize,
    pub data: Seq<u8>,
}

impl View for ChunkInfo {
    type V = ChunkView;

    open spec fn view(&self) -> ChunkView {
        ChunkView { index: self.index, checksum: self.checksum@, size: self.size, data: self.data@ }
    }
}

/// The chunks of a slice of `ChunkInfo`, as plain values.
pub open spec fn chunk_views(chunks: Seq<ChunkInfo>) -> Seq<ChunkView> {
    chunks.map_values(|c: ChunkInfo| c@)
}

/// What it takes to turn the old file into the new one, chunk by chunk.
pub struct FileDelta {
    pub chunks_to_add: Vec<(usize, Vec<u8>)>,
    pub chunks_to_remove: Vec<usize>,
    pub chunks_to_keep: Vec<ChunkInfo>,
}

/// A delta as plain values.
pub struct DeltaView {
    pub add: Seq<(usize, Seq<u8>)>,
    pub remove: Seq<usize>,
    pub keep: Seq<ChunkView>,
}

impl View for FileDelta {
    type V = DeltaView;

    open spec fn view(&self) -> DeltaView {
        DeltaView {
            add: self.chunks_to_add@.map_values(|a: (usize, Vec<u8>)| (a.0, a.1@)),
            remove: self.chunks_to_remove@,
            keep: chunk_views(self.chunks_to_keep@),
        }
    }
}

/// Errors of the chunk codec.
pub enum DeltaError {
    /// A chunk index or size that is not a number that fits a `usize`; it
    /// holds the offending text.
    InvalidNumber(String),
}

/// The delta-synchronisation operations.
pub struct DeltaSync;

/// How many chunks a file of `len` bytes is cut into.
pub open spec fn chunk_count(len: nat) -> nat {
    (len + 4095) / 4096
}

/// The bytes of chunk `i` of `content`.
pub open spec fn chunk_data(content: Seq<u8>, i: int) -> Seq<u8> {
    content.subrange(i * 4096, if (i + 1) * 4096 <= content.len() { (i + 1) * 4096 } else { content.len() as int })
}

/// The chunk `i` of `content` as `chunk_file` describes it.
pub open spec fn spec_chunk(content: Seq<u8>, i: int) -> ChunkView {
    ChunkView {
        index: i as usize,
        checksum: spec_checksum(chunk_data(content, i)),
        size: chunk_data(content, i).len() as usize,
        data: chunk_data(content, i),
    }
}

/// `chunk_file`: the chunks of `content`, in order.
pub open spec fn spec_chunk_file(content: Seq<u8>) -> Seq<ChunkView> {
    Seq::new(chunk_count(content.len()), |i: int| spec_chunk(content, i))
}


/// The remote chunk with index `i` that a map keyed by index keeps when it is
/// filled from `remote` in order: the last one.
pub open spec fn remote_lookup(remote: Seq<ChunkView>, i: usize) -> Option<ChunkView>
    decreases remote.len(),
{
    if remote.len() == 0 {
        None
    } else if remote.last().index == i {
        Some(remote.last())
    } else {
        remote_lookup(remote.drop_last(), i)
    }
}

/// The remote side holds this chunk with the same checksum.
pub open spec fn is_unchanged(remote: Seq<ChunkView>, c: ChunkView) -> bool {
    match remote_lookup(remote, c.index) {
        Some(r) => r.checksum == c.checksum,
        None => false,
    }
}

/// The remote side holds a chunk at this index with another checksum.
pub open spec fn is_replaced(remote: Seq<ChunkView>, c: ChunkView) -> bool {
    match remote_lookup(remote, c.index) {
        Some(r) => r.checksum != c.checksum,
        None => false,
    }
}

/// The local chunks that the remote side already holds, in order.
pub open spec fn kept_chunks(remote: Seq<ChunkView>, local: Seq<ChunkView>) -> Seq<ChunkView>
    decreases local.len(),
{
    if local.len() == 0 {
        Seq::empty()
    } else {
        let pre = kept_chunks(remote, local.drop_last());
        if is_unchanged(remote, local.last()) {
            pre.push(local.last())
        } else {
            pre
        }
    }
}

/// The local chunks that must be sent, as index and bytes, in order.
pub open spec fn added_chunks(remote: Seq<ChunkView>, local: Seq<ChunkView>) -> Seq<(usize, Seq<u8>)>
    decreases local.len(),
{
    if local.len() == 0 {
        Seq::empty()
    } else {
        let pre = added_chunks(remote, local.drop_last());
        if is_unchanged(remote, local.last()) {
            pre
        } else {
            pre.push((local.last().index, local.last().data))
        }
    }
}

/// The indices of local chunks whose remote copy differs, in order.
pub open spec fn replaced_indices(remote: Seq<ChunkView>, local: Seq<ChunkView>) -> Seq<usize>
    decreases local.len(),
{
    if local.len() == 0 {
        Seq::empty()
    } else {
        let pre = replaced_indices(remote, local.drop_last());
        if is_replaced(remote, local.last()) {
            pre.push(local.last().index)
        } else {
            pre
        }
    }
}

/// Some chunk of `chunks` has index `i`.
pub open spec fn has_index(chunks: Seq<ChunkView>, i: usize) -> bool {
    exists|k: int| 0 <= k < chunks.len() && (#[trigger] chunks[k]).index == i
}

/// The removal list: the replaced indices, then each index of a remote chunk
/// that is neither kept nor listed already, in the order of `remote`.
pub open spec fn removed_indices(keep: Seq<ChunkView>, replaced: Seq<usize>, remote: Seq<ChunkView>) -> Seq<usize>
    decreases remote.len(),
{
    if remote.len() == 0 {
        replaced
    } else {
        let acc = removed_indices(keep, replaced, remote.drop_last());
        let j = remote.last().index;
        if has_index(keep, j) || acc.contains(j) {
            acc
        } else {
            acc.push(j)
        }
    }
}

/// The delta that turns a file with chunks `remote` into `local_content`.
pub open spec fn spec_delta(local_content: Seq<u8>, remote: Seq<ChunkView>) -> DeltaView {
    let local = spec_chunk_file(local_content);
    let keep = kept_chunks(remote, local);
    DeltaView {
        add: added_chunks(remote, local),
        remove: removed_indices(keep, replaced_indices(remote, local), remote),
        keep,
    }
}

/// `m` maps each index among the first `n` remote chunks to the position of
/// the last of them with that index.
pub open spec fn positions_valid(m: Map<usize, usize>, remote: Seq<ChunkView>, n: int) -> bool {
    forall|i: usize|
        match #[trigger] remote_lookup(remote.take(n), i) {
            Some(c) => m.contains_key(i) && m[i] < n && remote[m[i] as int] == c,
            None => !m.contains_key(i),
        }
}

fn has_chunk_index(chunks: &Vec<ChunkInfo>, i: usize) -> (b: bool)
    ensures
        b == has_index(chunk_views(chunks@), i),
{
    let mut k: usize = 0;
    while k < chunks.len()
        invariant
            k <= chunks@.len(),
            forall|j: int| 0 <= j < k ==> chunks@[j].index != i,
        decreases chunks@.len() - k,
    {
        if chunks[k].index == i {
            assert(chunk_views(chunks@)[k as int].index == i);
            return true;
        }
        k += 1;
    }
    assert forall|j: int| 0 <= j < chunk_views(chunks@).len() implies (#[trigger] chunk_views(chunks@)[j]).index != i by {
        assert(chunk_views(chunks@)[j] == chunks@[j]@);
    }
    false
}

fn contains_index(v: &Vec<usize>, i: usize) -> (b: bool)
    ensures
        b == v@.contains(i),
{
    let mut k: usize = 0;
    while k < v.len()
        invariant
            k <= v@.len(),
            forall|j: int| 0 <= j < k ==> v@[j] != i,
        decreases v@.len() - k,
    {
        if v[k] == i {
            return true;
        }
        k += 1;
    }
    false
}


/// The largest of `init` and the entries of `xs`.
pub open spec fn max_of(xs: Seq<usize>, init: usize) -> usize
    decreases xs.len(),
{
    if xs.len() == 0 {
        init
    } else {
        let m = max_of(xs.drop_last(), init);
        if xs.last() > m {
            xs.last()
        } else {
            m
        }
    }
}

/// The largest index among the kept and the added chunks of a delta, 0 where
/// there is none.
pub open spec fn max_delta_index(d: DeltaView) -> usize {
    max_of(d.add.map_values(|a: (usize, Seq<u8>)| a.0), max_of(d.keep.map_values(|c: ChunkView| c.index), 0))
}

/// The bytes of the first added chunk with index `i`.
pub open spec fn first_added(add: Seq<(usize, Seq<u8>)>, i: usize) -> Option<Seq<u8>>
    decreases add.len(),
{
    if add.len() == 0 {
        None
    } else if add[0].0 == i {
        Some(add[0].1)
    } else {
        first_added(add.drop_first(), i)
    }
}

/// What `apply_delta` writes for index `i`: the added bytes for `i` if there
/// are any; else, if `i` is kept, chunk `i` of the base where the base has
/// one; else nothing.
pub open spec fn delta_piece(base: Seq<u8>, d: DeltaView, i: usize) -> Seq<u8> {
    match first_added(d.add, i) {
        Some(data) => data,
        None => if has_index(d.keep, i) && i < chunk_count(base.len()) {
            chunk_data(base, i as int)
        } else {
            Seq::empty()
        },
    }
}

/// The pieces for the indices below `n`, in order.
pub open spec fn assemble(base: Seq<u8>, d: DeltaView, n: nat) -> Seq<u8>
    decreases n,
{
    if n == 0 {
        Seq::empty()
    } else {
        assemble(base, d, (n - 1) as nat) + delta_piece(base, d, (n - 1) as usize)
    }
}

/// `apply_delta`: the pieces for every index from 0 to the largest index of the delta.
pub open spec fn spec_apply_delta(base: Seq<u8>, d: DeltaView) -> Seq<u8> {
    assemble(base, d, (max_delta_index(d) + 1) as nat)
}

fn append_bytes(out: &mut Vec<u8>, data: &[u8])
    ensures
        final(out)@ == old(out)@ + data@,
{
    out.extend_from_slice(data);
    assert(out@ =~= old(out)@ + data@);
}


/// The text `serialize_chunks` writes for one chunk: `index:checksum:size`.
pub open spec fn chunk_entry(c: ChunkView) -> Seq<char> {
    decimal(c.index as nat) + seq![':'] + c.checksum + seq![':'] + decimal(c.size as nat)
}

/// `serialize_chunks`: the entries of the chunks joined with commas.
pub open spec fn spec_serialize_chunks(chunks: Seq<ChunkView>) -> Seq<char> {
    join_with(chunks.map_values(|c: ChunkView| chunk_entry(c)), ',')
}

/// What `deserialize_chunks` makes of one comma-separated piece.
pub enum EntryView {
    /// An empty piece, or one that does not have exactly three fields.
    Skip,
    /// A field that should hold a number and does not.
    Bad(Seq<char>),
    /// A chunk description (without bytes).
    Entry(ChunkView),
}

/// What `deserialize_chunks` makes of one piece: its `:`-separated fields
/// must be three, the first and last numbers.
pub open spec fn decode_entry(piece: Seq<char>) -> EntryView {
    if piece.len() == 0 {
        EntryView::Skip
    } else {
        let parts = split_char(piece, ':');
        if parts.len() != 3 {
            EntryView::Skip
        } else {
            match parse_usize_spec(parts[0]) {
                None => EntryView::Bad(parts[0]),
                Some(index) => match parse_usize_spec(parts[2]) {
                    None => EntryView::Bad(parts[2]),
                    Some(size) => EntryView::Entry(
                        ChunkView { index, checksum: parts[1], size, data: Seq::empty() },
                    ),
                },
            }
        }
    }
}

/// The chunks described by the pieces, or the first field that is not a number.
pub open spec fn decode_entries(pieces: Seq<Seq<char>>) -> Result<Seq<ChunkView>, Seq<char>>
    decreases pieces.len(),
{
    if pieces.len() == 0 {
        Ok(Seq::empty())
    } else {
        match decode_entries(pieces.drop_last()) {
            Err(e) => Err(e),
            Ok(acc) => match decode_entry(pieces.last()) {
                EntryView::Skip => Ok(acc),
                EntryView::Bad(t) => Err(t),
                EntryView::Entry(c) => Ok(acc.push(c)),
            },
        }
    }
}

/// `deserialize_chunks`: the chunks described by the comma-separated pieces
/// of `text`, or the first field that should be a number and is not one.
pub open spec fn spec_deserialize_chunks(text: Seq<char>) -> Result<Seq<ChunkView>, Seq<char>> {
    decode_entries(split_char(text, ','))
}

proof fn lemma_decode_entries_err(pieces: Seq<Seq<char>>, k: int, e: Seq<char>)
    requires
        0 <= k <= pieces.len(),
        decode_entries(pieces.take(k)) == Err::<Seq<ChunkView>, Seq<char>>(e),
    ensures
        decode_entries(pieces) == Err::<Seq<ChunkView>, Seq<char>>(e),
    decreases pieces.len() - k,
{
    if k < pieces.len() {
        assert(pieces.take(k + 1).drop_last() =~= pieces.take(k));
        lemma_decode_entries_err(pieces, k + 1, e);
    } else {
        assert(pieces.take(k) =~= pieces);
    }
}

impl DeltaSync {
    /// The size of the chunks that files are cut into (4 KiB).
    pub const CHUNK_SIZE: usize = 4096;

    /// Cuts `content` into chunks of `CHUNK_SIZE` bytes (the last may be
    /// shorter), each with its index, checksum (64 lower-case hexadecimal
    /// digits), length and bytes.
    pub fn chunk_file(content: &[u8]) -> (chunks: Vec<ChunkInfo>)
        ensures
            chunk_views(chunks@) == spec_chunk_file(content@),
            forall|i: int| 0 <= i < chunks@.len() ==> (#[trigger] chunks@[i]).checksum@.len() == 64,
    {
        let mut chunks: Vec<ChunkInfo> = Vec::new();
        let len = content.len();
        let mut start: usize = 0;
        let mut index: usize = 0;
        while start < len
            invariant
                len == content@.len(),
                start == if index * 4096 <= len { index * 4096 } else { len as int },
                start <= len,
                index <= chunk_count(len as nat),
                start < len <==> index < chunk_count(len as nat),
                chunk_views(chunks@) == spec_chunk_file(content@).take(index as int),
                forall|i: int| 0 <= i < chunks@.len() ==> (#[trigger] chunks@[i]).checksum@.len() == 64,
            decreases len - start,
        {
            let end = if len - start > Self::CHUNK_SIZE { start + Self::CHUNK_SIZE } else { len };
            let data = slice_to_vec(slice_subrange(content, start, end));
            assert(data@ =~= chunk_data(content@, index as int));
            let checksum = blake3_checksum(data.as_slice());
            let chunk = ChunkInfo { index, checksum, size: end - start, data };
            assert(chunk@ == spec_chunk(content@, index as int));
            let ghost before = chunks@;
            assert(chunk_views(before).len() == before.len());
            assert(before.len() == index);
            chunks.push(chunk);
            assert(chunks@ == before.push(chunk));
            assert(index < chunk_count(len as nat));
            assert(chunk_views(chunks@)[index as int] == chunk@);
            assert(spec_chunk_file(content@)[index as int] == spec_chunk(content@, index as int));
            assert forall|k: int| 0 <= k < index + 1 implies #[trigger] chunk_views(chunks@)[k] == spec_chunk_file(content@)[k] by {
                if k < index {
                    assert(chunk_views(before)[k] == spec_chunk_file(content@).take(index as int)[k]);
                }
            }
            assert(chunk_views(chunks@) =~= spec_chunk_file(content@).take(index + 1));
            index += 1;
            if len - start > Self::CHUNK_SIZE {
                start = start + Self::CHUNK_SIZE;
            } else {
                start = len;
                assert(index == chunk_count(len as nat));
            }
        }
        assert(spec_chunk_file(content@).take(index as int) =~= spec_chunk_file(content@));
        chunks
    }


    /// Rebuilds a file from `base_content` and a delta: for each index from 0
    /// to the largest kept or added index, the first added bytes for that
    /// index, or else, where the index is kept, the base's chunk there.
    pub fn apply_delta(base_content: &[u8], delta: &FileDelta) -> (r: Result<Vec<u8>, DeltaError>)
        ensures
            r matches Ok(v) && v@ == spec_apply_delta(base_content@, delta@),
    {
        let ghost d = delta@;
        let ghost keep_idx = d.keep.map_values(|c: ChunkView| c.index);
        let ghost add_idx = d.add.map_values(|a: (usize, Seq<u8>)| a.0);
        let mut max_index: usize = 0;
        let mut k: usize = 0;
        while k < delta.chunks_to_keep.len()
            invariant
                d == delta@,
                keep_idx == d.keep.map_values(|c: ChunkView| c.index),
                k <= delta.chunks_to_keep@.len(),
                max_index == max_of(keep_idx.take(k as int), 0),
            decreases delta.chunks_to_keep@.len() - k,
        {
            assert(keep_idx.take(k + 1).drop_last() =~= keep_idx.take(k as int));
            assert(keep_idx[k as int] == delta.chunks_to_keep@[k as int].index);
            if delta.chunks_to_keep[k].index > max_index {
                max_index = delta.chunks_to_keep[k].index;
            }
            k += 1;
        }
        assert(keep_idx.take(k as int) =~= keep_idx);
        let ghost max_keep = max_index;
        k = 0;
        while k < delta.chunks_to_add.len()
            invariant
                d == delta@,
                add_idx == d.add.map_values(|a: (usize, Seq<u8>)| a.0),
                k <= delta.chunks_to_add@.len(),
                max_index == max_of(add_idx.take(k as int), max_keep),
            decreases delta.chunks_to_add@.len() - k,
        {
            assert(add_idx.take(k + 1).drop_last() =~= add_idx.take(k as int));
            assert(add_idx[k as int] == delta.chunks_to_add@[k as int].0);
            if delta.chunks_to_add[k].0 > max_index {
                max_index = delta.chunks_to_add[k].0;
            }
            k += 1;
        }
        assert(add_idx.take(k as int) =~= add_idx);
        assert(max_index == max_delta_index(d));

        let mut result: Vec<u8> = Vec::new();
        let mut index: usize = 0;
        loop
            invariant_except_break
                d == delta@,
                index <= max_index,
                max_index == max_delta_index(d),
                result@ == assemble(base_content@, d, index as nat),
            ensures
                result@ == assemble(base_content@, d, (max_index + 1) as nat),
            decreases max_index - index,
        {
            Self::append_piece(&mut result, base_content, delta, index);
            if index == max_index {
                break;
            }
            index += 1;
        }
        Ok(result)
    }

    /// Appends what `apply_delta` writes for index `index`.
    fn append_piece(result: &mut Vec<u8>, base_content: &[u8], delta: &FileDelta, index: usize)
        ensures
            final(result)@ == old(result)@ + delta_piece(base_content@, delta@, index),
    {
        let ghost d = delta@;
        let mut a: usize = 0;
        assert(d.add.skip(0) =~= d.add);
        while a < delta.chunks_to_add.len()
            invariant
                d == delta@,
                a <= delta.chunks_to_add@.len(),
                first_added(d.add, index) == first_added(d.add.skip(a as int), index),
                result@ == old(result)@,
            decreases delta.chunks_to_add@.len() - a,
        {
            assert(d.add.skip(a as int)[0] == (delta.chunks_to_add@[a as int].0, delta.chunks_to_add@[a as int].1@));
            if delta.chunks_to_add[a].0 == index {
                append_bytes(result, delta.chunks_to_add[a].1.as_slice());
                return;
            }
            assert(d.add.skip(a as int).drop_first() =~= d.add.skip(a + 1));
            a += 1;
        }
        assert(first_added(d.add.skip(a as int), index) is None);
        let kept = has_chunk_index(&delta.chunks_to_keep, index);
        let len = base_content.len();
        if kept && index < len / Self::CHUNK_SIZE + (if len % Self::CHUNK_SIZE == 0 { 0 } else { 1 }) {
            let start = index * Self::CHUNK_SIZE;
            let end = if len - start > Self::CHUNK_SIZE { start + Self::CHUNK_SIZE } else { len };
            append_bytes(result, slice_subrange(base_content, start, end));
        }
    }


    /// Describes the chunks as text: `index:checksum:size` for each chunk,
    /// joined with commas. The bytes are left out.
    pub fn serialize_chunks(chunks: &[ChunkInfo]) -> (text: String)
        ensures
            text@ == spec_serialize_chunks(chunk_views(chunks@)),
    {
        let ghost entries = chunk_views(chunks@).map_values(|c: ChunkView| chunk_entry(c));
        let mut out: Vec<char> = Vec::new();
        let mut k: usize = 0;
        while k < chunks.len()
            invariant
                k <= chunks@.len(),
                entries == chunk_views(chunks@).map_values(|c: ChunkView| chunk_entry(c)),
                out@ == join_with(entries.take(k as int), ','),
            decreases chunks@.len() - k,
        {
            let ghost before = out@;
            if k > 0 {
                out.push(',');
            }
            let chunk = &chunks[k];
            push_decimal(&mut out, chunk.index as u64);
            out.push(':');
            let checksum = chars_of(chunk.checksum.as_str());
            let mut j: usize = 0;
            let ghost mid = out@;
            while j < checksum.len()
                invariant
                    j <= checksum@.len(),
                    out@ == mid + checksum@.take(j as int),
                decreases checksum@.len() - j,
            {
                out.push(checksum[j]);
                j += 1;
                assert(out@ =~= mid + checksum@.take(j as int));
            }
            assert(checksum@.take(j as int) =~= checksum@);
            out.push(':');
            push_decimal(&mut out, chunk.size as u64);
            proof {
                assert(entries[k as int] == chunk_entry(chunks@[k as int]@));
                assert(entries.take(k + 1).drop_last() =~= entries.take(k as int));
                if k == 0 {
                    assert(entries.take(1) =~= seq![entries[0]]);
                    assert(out@ =~= chunk_entry(chunks@[0]@));
                } else {
                    assert(out@ =~= before + seq![','] + chunk_entry(chunks@[k as int]@));
                }
            }
            k += 1;
        }
        assert(entries.take(k as int) =~= entries);
        string_from_chars(out.as_slice())
    }

    /// Reads chunk descriptions written by `serialize_chunks`: the text is
    /// cut at commas; empty pieces and pieces without exactly three
    /// `:`-separated fields are skipped; the first and third fields must be
    /// numbers that fit a `usize`, else the offending field is the error.
    /// The chunks come without bytes.
    pub fn deserialize_chunks(data: &str) -> (r: Result<Vec<ChunkInfo>, DeltaError>)
        ensures
            match r {
                Ok(chunks) => spec_deserialize_chunks(data@) == Ok::<Seq<ChunkView>, Seq<char>>(chunk_views(chunks@)),
                Err(DeltaError::InvalidNumber(t)) => spec_deserialize_chunks(data@) == Err::<Seq<ChunkView>, Seq<char>>(t@),
            },
    {
        let cs = chars_of(data);
        let pieces = split_ranges(cs.as_slice(), 0, cs.len(), ',');
        let ghost all = split_char(cs@.subrange(0, cs@.len() as int), ',');
        assert(cs@.subrange(0, cs@.len() as int) =~= data@);
        let mut chunks: Vec<ChunkInfo> = Vec::new();
        let mut k: usize = 0;
        assert(all.take(0) =~= Seq::<Seq<char>>::empty());
        assert(chunk_views(chunks@) =~= Seq::<ChunkView>::empty());
        while k < pieces.len()
            invariant
                all == split_char(data@, ','),
                cs@ == data@,
                pieces@.len() == all.len(),
                forall|m: int| 0 <= m < pieces@.len() ==> {
                    &&& 0 <= (#[trigger] pieces@[m]).0 <= pieces@[m].1 <= cs@.len()
                    &&& cs@.subrange(pieces@[m].0 as int, pieces@[m].1 as int) == all[m]
                },
                k <= pieces@.len(),
                decode_entries(all.take(k as int)) == Ok::<Seq<ChunkView>, Seq<char>>(chunk_views(chunks@)),
            decreases pieces@.len() - k,
        {
            let (a, b) = pieces[k];
            let ghost piece = all[k as int];
            assert(all.take(k + 1).drop_last() =~= all.take(k as int));
            assert(all.take(k + 1).last() == piece);
            if a == b {
                k += 1;
                continue;
            }
            let parts = split_ranges(cs.as_slice(), a, b, ':');
            if parts.len() != 3 {
                k += 1;
                continue;
            }
            let (i0, i1) = parts[0];
            let (c0, c1) = parts[1];
            let (s0, s1) = parts[2];
            let index = match parse_usize(cs.as_slice(), i0, i1) {
                Some(v) => v,
                None => {
                    let text = string_from_chars(slice_subrange(cs.as_slice(), i0, i1));
                    proof { lemma_decode_entries_err(all, k + 1, text@); }
                    return Err(DeltaError::InvalidNumber(text));
                },
            };
            let size = match parse_usize(cs.as_slice(), s0, s1) {
                Some(v) => v,
                None => {
                    let text = string_from_chars(slice_subrange(cs.as_slice(), s0, s1));
                    proof { lemma_decode_entries_err(all, k + 1, text@); }
                    return Err(DeltaError::InvalidNumber(text));
                },
            };
            let checksum = string_from_chars(slice_subrange(cs.as_slice(), c0, c1));
            let chunk = ChunkInfo { index, checksum, size, data: Vec::new() };
            let ghost before = chunks@;
            chunks.push(chunk);
            assert(chunk_views(chunks@) =~= chunk_views(before).push(chunk@));
            k += 1;
        }
        assert(all.take(k as int) =~= all);
        Ok(chunks)
    }

    /// The delta from the file whose chunks are `remote_chunks` to the file
    /// `local_content`: local chunks that the remote holds with the same
    /// checksum are kept; the others are added, and their index is removed
    /// where the remote holds another checksum there; remote indices that
    /// are neither kept nor removed yet are removed. Where `remote_chunks`
    /// repeats an index, its last chunk with that index counts.
    pub fn calculate_delta(local_content: &[u8], remote_chunks: &[ChunkInfo]) -> (delta: FileDelta)
        ensures
            delta@ == spec_delta(local_content@, chunk_views(remote_chunks@)),
    {
        let local_chunks = Self::chunk_file(local_content);
        let ghost local = chunk_views(local_chunks@);
        let ghost remote = chunk_views(remote_chunks@);

        let mut positions: HashMap<usize, usize> = HashMap::new();
        let mut j: usize = 0;
        while j < remote_chunks.len()
            invariant
                j <= remote_chunks@.len(),
                remote == chunk_views(remote_chunks@),
                positions_valid(positions@, remote, j as int),
            decreases remote_chunks@.len() - j,
        {
            let idx = remote_chunks[j].index;
            positions.insert(idx, j);
            assert forall|i: usize| match #[trigger] remote_lookup(remote.take(j + 1), i) {
                Some(c) => positions@.contains_key(i) && positions@[i] < j + 1 && remote[positions@[i] as int] == c,
                None => !positions@.contains_key(i),
            } by {
                assert(remote.take(j + 1).drop_last() =~= remote.take(j as int));
                assert(remote_lookup(remote.take(j as int), i) == remote_lookup(remote.take(j as int), i));
            }
            j += 1;
        }
        assert(remote.take(remote_chunks@.len() as int) =~= remote);

        let mut keep: Vec<ChunkInfo> = Vec::new();
        let mut add: Vec<(usize, Vec<u8>)> = Vec::new();
        let mut remove: Vec<usize> = Vec::new();
        for chunk in it: local_chunks
            invariant
                local == chunk_views(it.seq()),
                remote == chunk_views(remote_chunks@),
                positions_valid(positions@, remote, remote.len() as int),
                remote.take(remote.len() as int) == remote,
                chunk_views(keep@) == kept_chunks(remote, local.take(it.index() as int)),
                add@.map_values(|a: (usize, Vec<u8>)| (a.0, a.1@)) == added_chunks(remote, local.take(it.index() as int)),
                remove@ == replaced_indices(remote, local.take(it.index() as int)),
        {
            let ghost k = it.index();
            let ghost c = chunk@;
            assert(local.take(k + 1).drop_last() =~= local.take(k as int));
            assert(local.take(k + 1).last() == c);
            let ghost keep_before = keep@;
            let ghost add_before = add@;
            let same = match positions.get(&chunk.index) {
                Some(p) => {
                    let p = *p;
                    assert(remote_lookup(remote.take(remote.len() as int), chunk.index) is Some);
                    let equal = chunk.checksum == remote_chunks[p].checksum;
                    if !equal {
                        remove.push(chunk.index);
                    }
                    equal
                },
                None => {
                    assert(remote_lookup(remote.take(remote.len() as int), chunk.index) is None);
                    false
                },
            };
            assert(same == is_unchanged(remote, c));
            if same {
                keep.push(chunk);
                assert(chunk_views(keep@) =~= chunk_views(keep_before).push(c));
            } else {
                let index = chunk.index;
                add.push((index, chunk.data));
                assert(add@.map_values(|a: (usize, Vec<u8>)| (a.0, a.1@))
                    =~= add_before.map_values(|a: (usize, Vec<u8>)| (a.0, a.1@)).push((c.index, c.data)));
            }
        }
        assert(local.take(local.len() as int) =~= local);

        let ghost keep_view = chunk_views(keep@);
        let ghost replaced = remove@;
        let mut r: usize = 0;
        while r < remote_chunks.len()
            invariant
                r <= remote_chunks@.len(),
                remote == chunk_views(remote_chunks@),
                keep_view == chunk_views(keep@),
                remove@ == removed_indices(keep_view, replaced, remote.take(r as int)),
            decreases remote_chunks@.len() - r,
        {
            let idx = remote_chunks[r].index;
            assert(remote.take(r + 1).drop_last() =~= remote.take(r as int));
            assert(remote.take(r + 1).last().index == idx);
            if !has_chunk_index(&keep, idx) && !contains_index(&remove, idx) {
                remove.push(idx);
            }
            r += 1;
        }
        assert(remote.take(remote_chunks@.len() as int) =~= remote);
        FileDelta { chunks_to_add: add, chunks_to_remove: remove, chunks_to_keep: keep }
    }
}


// ---------------------------------------------------------------------------
// Laws

/// The chunk list of a file in the form a remote peer reports it: one entry
/// per chunk, in order, with the chunk's index and checksum.
pub open spec fn describes_file(remote: Seq<ChunkView>, content: Seq<u8>) -> bool {
    &&& remote.len() == chunk_count(content.len())
    &&& forall|i: int| 0 <= i < remote.len() ==> {
        &&& (#[trigger] remote[i]).index == i
        &&& remote[i].checksum == spec_checksum(chunk_data(content, i))
    }
}

/// No two chunks at the same index of `a` and `b` share a checksum without
/// sharing their bytes.
pub open spec fn no_checksum_collision(a: Seq<u8>, b: Seq<u8>) -> bool {
    forall|i: int|
        0 <= i < chunk_count(a.len()) && 0 <= i < chunk_count(b.len())
        && #[trigger] spec_checksum(chunk_data(a, i)) == spec_checksum(chunk_data(b, i))
        ==> chunk_data(a, i) == chunk_data(b, i)
}

proof fn lemma_chunk_file_positional(content: Seq<u8>)
    requires
        content.len() <= usize::MAX,
    ensures
        forall|k: int| 0 <= k < spec_chunk_file(content).len() ==> {
            &&& (#[trigger] spec_chunk_file(content)[k]).index == k
            &&& spec_chunk_file(content)[k].data == chunk_data(content, k)
        },
{
}

proof fn lemma_lookup_positional(remote: Seq<ChunkView>, i: usize)
    requires
        forall|k: int| 0 <= k < remote.len() ==> (#[trigger] remote[k]).index == k,
    ensures
        remote_lookup(remote, i) == if i < remote.len() { Some(remote[i as int]) } else { None::<ChunkView> },
    decreases remote.len(),
{
    if remote.len() > 0 {
        lemma_lookup_positional(remote.drop_last(), i);
    }
}

proof fn lemma_first_added_push(add: Seq<(usize, Seq<u8>)>, x: (usize, Seq<u8>), i: usize)
    ensures
        first_added(add.push(x), i) == match first_added(add, i) {
            Some(d) => Some(d),
            None => if x.0 == i { Some(x.1) } else { None },
        },
    decreases add.len(),
{
    if add.len() > 0 {
        assert(add.push(x)[0] == add[0]);
        assert(add.push(x).drop_first() =~= add.drop_first().push(x));
        lemma_first_added_push(add.drop_first(), x, i);
    } else {
        assert(add.push(x).drop_first() =~= Seq::<(usize, Seq<u8>)>::empty());
        assert(first_added(add.push(x).drop_first(), i) is None);
        assert(first_added(add, i) is None);
        assert(add.push(x)[0] == x);
    }
}

/// The kept and added chunks of a positional chunk list, index by index.
proof fn lemma_split_positional(remote: Seq<ChunkView>, local: Seq<ChunkView>, i: usize)
    requires
        forall|k: int| 0 <= k < local.len() ==> (#[trigger] local[k]).index == k,
    ensures
        has_index(kept_chunks(remote, local), i) == (i < local.len() && is_unchanged(remote, local[i as int])),
        first_added(added_chunks(remote, local), i) == if i < local.len() && !is_unchanged(remote, local[i as int]) {
            Some(local[i as int].data)
        } else {
            None::<Seq<u8>>
        },
        forall|k: int| 0 <= k < kept_chunks(remote, local).len() ==> (#[trigger] kept_chunks(remote, local)[k]).index < local.len(),
        forall|k: int| 0 <= k < added_chunks(remote, local).len() ==> (#[trigger] added_chunks(remote, local)[k]).0 < local.len(),
    decreases local.len(),
{
    if local.len() > 0 {
        let pre = local.drop_last();
        lemma_split_positional(remote, pre, i);
        let c = local.last();
        let kp = kept_chunks(remote, pre);
        if is_unchanged(remote, c) {
            if has_index(kp.push(c), i) && !has_index(kp, i) {
                let k = choose|k: int| 0 <= k < kp.push(c).len() && (#[trigger] kp.push(c)[k]).index == i;
                assert(k == kp.len());
            }
            if has_index(kp, i) {
                let k = choose|k: int| 0 <= k < kp.len() && (#[trigger] kp[k]).index == i;
                assert(kp.push(c)[k].index == i);
            }
            if i == local.len() - 1 {
                assert(kp.push(c)[kp.len() as int].index == i);
            }
        } else {
            lemma_first_added_push(added_chunks(remote, pre), (c.index, c.data), i);
        }
    }
}

proof fn lemma_max_of(xs: Seq<usize>, init: usize)
    ensures
        max_of(xs, init) >= init,
        forall|k: int| 0 <= k < xs.len() ==> max_of(xs, init) >= #[trigger] xs[k],
        max_of(xs, init) == init || exists|k: int| 0 <= k < xs.len() && max_of(xs, init) == #[trigger] xs[k],
    decreases xs.len(),
{
    if xs.len() > 0 {
        lemma_max_of(xs.drop_last(), init);
        let m = max_of(xs.drop_last(), init);
        assert forall|k: int| 0 <= k < xs.len() implies max_of(xs, init) >= #[trigger] xs[k] by {
            if k < xs.len() - 1 {
                assert(xs.drop_last()[k] == xs[k]);
            }
        }
        if max_of(xs, init) != init {
            if xs.last() > m {
                assert(max_of(xs, init) == xs[xs.len() - 1]);
            } else {
                let k = choose|k: int| 0 <= k < xs.drop_last().len() && m == #[trigger] xs.drop_last()[k];
                assert(max_of(xs, init) == xs[k]);
            }
        }
    }
}

/// The pieces that `apply_delta` writes rebuild the new file, chunk by chunk.
proof fn lemma_assemble_prefix(base: Seq<u8>, modified: Seq<u8>, remote: Seq<ChunkView>, k: nat)
    requires
        describes_file(remote, base),
        no_checksum_collision(modified, base),
        modified.len() <= usize::MAX,
        k <= chunk_count(modified.len()),
    ensures
        assemble(base, spec_delta(modified, remote), k)
            == modified.subrange(0, if k * 4096 <= modified.len() { (k * 4096) as int } else { modified.len() as int }),
    decreases k,
{
    let d = spec_delta(modified, remote);
    let local = spec_chunk_file(modified);
    lemma_chunk_file_positional(modified);
    if k > 0 {
        lemma_assemble_prefix(base, modified, remote, (k - 1) as nat);
        let i = (k - 1) as usize;
        lemma_split_positional(remote, local, i);
        lemma_lookup_positional(remote, i);
        let piece = delta_piece(base, d, i);
        if is_unchanged(remote, local[i as int]) {
            assert(i < remote.len());
            assert(spec_checksum(chunk_data(modified, i as int)) == spec_checksum(chunk_data(base, i as int)));
            assert(piece == chunk_data(base, i as int));
        } else {
            assert(piece == chunk_data(modified, i as int));
        }
        assert(piece == chunk_data(modified, i as int));
        let lo = i * 4096;
        let hi = if k * 4096 <= modified.len() { (k * 4096) as int } else { modified.len() as int };
        assert(modified.subrange(0, lo as int) + modified.subrange(lo as int, hi) =~= modified.subrange(0, hi));
    } else {
        assert(modified.subrange(0, 0) =~= Seq::<u8>::empty());
    }
}

/// Law: applying to the old file the delta computed from the new file and
/// the old file's chunk list gives the new file back — wherever no chunk of
/// the new file shares a checksum with the old chunk at its index without
/// sharing its bytes.
pub proof fn lemma_apply_calculated_delta(base: Seq<u8>, modified: Seq<u8>, remote: Seq<ChunkView>)
    requires
        describes_file(remote, base),
        no_checksum_collision(modified, base),
        modified.len() <= usize::MAX,
    ensures
        spec_apply_delta(base, spec_delta(modified, remote)) == modified,
{
    lemma_chunk_file_positional(modified);
    let d = spec_delta(modified, remote);
    let local = spec_chunk_file(modified);
    let n = local.len();
    let keep_idx = d.keep.map_values(|c: ChunkView| c.index);
    let add_idx = d.add.map_values(|a: (usize, Seq<u8>)| a.0);
    lemma_split_positional(remote, local, 0);
    lemma_max_of(keep_idx, 0);
    lemma_max_of(add_idx, max_of(keep_idx, 0));
    let m = max_delta_index(d);
    if n == 0 {
        assert(d.keep.len() == 0);
        assert(d.add.len() == 0);
        assert(m == 0);
        lemma_split_positional(remote, local, 0);
        assert(delta_piece(base, d, 0) == Seq::<u8>::empty());
        assert(modified =~= Seq::<u8>::empty());
        assert(assemble(base, d, 0) =~= Seq::<u8>::empty());
        assert(assemble(base, d, 1) =~= Seq::<u8>::empty());
    } else {
        let top = (n - 1) as usize;
        lemma_split_positional(remote, local, top);
        if is_unchanged(remote, local[top as int]) {
            let k = choose|k: int| 0 <= k < d.keep.len() && (#[trigger] d.keep[k]).index == top;
            assert(keep_idx[k] == top);
        } else {
            assert(first_added(d.add, top) is Some);
            lemma_first_added_index(d.add, top);
            let k = choose|k: int| 0 <= k < d.add.len() && (#[trigger] d.add[k]).0 == top;
            assert(add_idx[k] == top);
        }
        assert(m >= top);
        if m != max_of(keep_idx, 0) {
            let k = choose|k: int| 0 <= k < add_idx.len() && m == #[trigger] add_idx[k];
            assert(d.add[k].0 < n);
        } else if m != 0 {
            let k = choose|k: int| 0 <= k < keep_idx.len() && m == #[trigger] keep_idx[k];
            assert(d.keep[k].index < n);
        }
        assert(m == top);
        lemma_assemble_prefix(base, modified, remote, n);
        assert(modified.subrange(0, modified.len() as int) =~= modified);
    }
}

proof fn lemma_all_unchanged(remote: Seq<ChunkView>, local: Seq<ChunkView>)
    requires
        forall|k: int| 0 <= k < local.len() ==> is_unchanged(remote, #[trigger] local[k]),
    ensures
        kept_chunks(remote, local) == local,
        added_chunks(remote, local) == Seq::<(usize, Seq<u8>)>::empty(),
        replaced_indices(remote, local) == Seq::<usize>::empty(),
    decreases local.len(),
{
    if local.len() > 0 {
        let pre = local.drop_last();
        assert forall|k: int| 0 <= k < pre.len() implies is_unchanged(remote, #[trigger] pre[k]) by {
            assert(pre[k] == local[k]);
        }
        lemma_all_unchanged(remote, pre);
        assert(is_unchanged(remote, local[local.len() - 1]));
        assert(pre.push(local.last()) =~= local);
    }
}

proof fn lemma_none_removed(keep: Seq<ChunkView>, remote: Seq<ChunkView>)
    requires
        forall|k: int| 0 <= k < remote.len() ==> has_index(keep, (#[trigger] remote[k]).index),
    ensures
        removed_indices(keep, Seq::<usize>::empty(), remote) == Seq::<usize>::empty(),
    decreases remote.len(),
{
    if remote.len() > 0 {
        let pre = remote.drop_last();
        assert forall|k: int| 0 <= k < pre.len() implies has_index(keep, (#[trigger] pre[k]).index) by {
            assert(pre[k] == remote[k]);
        }
        lemma_none_removed(keep, pre);
        assert(has_index(keep, remote[remote.len() - 1].index));
    }
}

/// Law: a file that has not changed gives an empty delta: every chunk of it
/// is kept (index, checksum, size and bytes, in order), and nothing is added
/// or removed.
pub proof fn lemma_unchanged_file_delta(content: Seq<u8>, remote: Seq<ChunkView>)
    requires
        describes_file(remote, content),
        content.len() <= usize::MAX,
    ensures
        spec_delta(content, remote) == (DeltaView {
            add: Seq::empty(),
            remove: Seq::empty(),
            keep: spec_chunk_file(content),
        }),
{
    lemma_chunk_file_positional(content);
    let local = spec_chunk_file(content);
    assert forall|k: int| 0 <= k < local.len() implies is_unchanged(remote, #[trigger] local[k]) by {
        lemma_lookup_positional(remote, k as usize);
        assert(local[k] == spec_chunk(content, k));
        assert(remote[k].checksum == spec_checksum(chunk_data(content, k)));
    }
    lemma_all_unchanged(remote, local);
    assert forall|k: int| 0 <= k < remote.len() implies has_index(local, (#[trigger] remote[k]).index) by {
        assert(local[k].index == k);
        assert(remote[k].index == k);
    }
    lemma_none_removed(local, remote);
}

proof fn lemma_first_added_index(add: Seq<(usize, Seq<u8>)>, i: usize)
    requires
        first_added(add, i) is Some,
    ensures
        exists|k: int| 0 <= k < add.len() && (#[trigger] add[k]).0 == i,
    decreases add.len(),
{
    if add[0].0 != i {
        lemma_first_added_index(add.drop_first(), i);
        let k = choose|k: int| 0 <= k < add.drop_first().len() && (#[trigger] add.drop_first()[k]).0 == i;
        assert(add[k + 1].0 == i);
    } else {
        assert(add[0].0 == i);
    }
}


/// A chunk description without its bytes.
pub open spec fn without_data(c: ChunkView) -> ChunkView {
    ChunkView { index: c.index, checksum: c.checksum, size: c.size, data: Seq::empty() }
}

/// A checksum that can stand in the chunk text: it holds neither `,` nor `:`.
pub open spec fn plain_checksum(c: ChunkView) -> bool {
    forall|j: int| 0 <= j < c.checksum.len() ==> c.checksum[j] != ',' && c.checksum[j] != ':'
}

proof fn lemma_decimal_plain(n: nat, sep: char)
    requires
        sep == ',' || sep == ':',
    ensures
        forall|j: int| 0 <= j < decimal(n).len() ==> decimal(n)[j] != sep,
{
    crate::text::lemma_decimal_all_digits(n);
}

proof fn lemma_decode_entry_of(c: ChunkView)
    requires
        plain_checksum(c),
    ensures
        decode_entry(chunk_entry(c)) == EntryView::Entry(without_data(c)),
        forall|j: int| 0 <= j < chunk_entry(c).len() ==> chunk_entry(c)[j] != ',',
{
    let di = decimal(c.index as nat);
    let ds = decimal(c.size as nat);
    lemma_decimal_plain(c.index as nat, ':');
    lemma_decimal_plain(c.size as nat, ':');
    lemma_decimal_plain(c.index as nat, ',');
    lemma_decimal_plain(c.size as nat, ',');
    let e = chunk_entry(c);
    assert(e == (di + seq![':'] + c.checksum) + seq![':'] + ds);
    lemma_split_char_append(di + seq![':'] + c.checksum, ds, ':');
    lemma_split_char_append(di, c.checksum, ':');
    lemma_split_char_none(di, ':');
    lemma_split_char_none(c.checksum, ':');
    lemma_split_char_none(ds, ':');
    let parts = split_char(e, ':');
    assert(parts =~= seq![di, c.checksum, ds]);
    lemma_parse_decimal(c.index as nat);
    lemma_parse_decimal(c.size as nat);
    assert(e.len() > 0);
    assert forall|j: int| 0 <= j < e.len() implies e[j] != ',' by {
        if j < di.len() {
            assert(e[j] == di[j]);
        } else if j == di.len() {
        } else if j < di.len() + 1 + c.checksum.len() {
            assert(e[j] == c.checksum[j - di.len() - 1]);
        } else if j == di.len() + 1 + c.checksum.len() {
        } else {
            assert(e[j] == ds[j - di.len() - 2 - c.checksum.len()]);
        }
    }
}

proof fn lemma_decode_entries_of(cs: Seq<ChunkView>)
    requires
        forall|k: int| 0 <= k < cs.len() ==> plain_checksum(#[trigger] cs[k]),
    ensures
        decode_entries(cs.map_values(|c: ChunkView| chunk_entry(c)))
            == Ok::<Seq<ChunkView>, Seq<char>>(cs.map_values(|c: ChunkView| without_data(c))),
    decreases cs.len(),
{
    if cs.len() > 0 {
        let pre = cs.drop_last();
        lemma_decode_entries_of(pre);
        lemma_decode_entry_of(cs.last());
        assert(cs.map_values(|c: ChunkView| chunk_entry(c)).drop_last() =~= pre.map_values(|c: ChunkView| chunk_entry(c)));
        assert(cs.map_values(|c: ChunkView| without_data(c)) =~= pre.map_values(|c: ChunkView| without_data(c)).push(without_data(cs.last())));
    } else {
        assert(cs.map_values(|c: ChunkView| without_data(c)) =~= Seq::<ChunkView>::empty());
    }
}

/// Law: reading back the text that `serialize_chunks` writes gives the same
/// chunk descriptions, without their bytes — wherever no checksum holds a
/// `,` or a `:`.
pub proof fn lemma_deserialize_serialized(chunks: Seq<ChunkView>)
    requires
        forall|k: int| 0 <= k < chunks.len() ==> plain_checksum(#[trigger] chunks[k]),
    ensures
        spec_deserialize_chunks(spec_serialize_chunks(chunks))
            == Ok::<Seq<ChunkView>, Seq<char>>(chunks.map_values(|c: ChunkView| without_data(c))),
{
    let entries = chunks.map_values(|c: ChunkView| chunk_entry(c));
    if chunks.len() == 0 {
        assert(spec_serialize_chunks(chunks) =~= Seq::<char>::empty());
        assert(split_char(Seq::<char>::empty(), ',') =~= seq![Seq::<char>::empty()]);
        let pieces = split_char(Seq::<char>::empty(), ',');
        assert(pieces.drop_last() =~= Seq::<Seq<char>>::empty());
        assert(decode_entries(pieces.drop_last()) == Ok::<Seq<ChunkView>, Seq<char>>(Seq::empty()));
        assert(chunks.map_values(|c: ChunkView| without_data(c)) =~= Seq::<ChunkView>::empty());
    } else {
        assert forall|k: int, j: int| 0 <= k < entries.len() && 0 <= j < entries[k].len() implies entries[k][j] != ',' by {
            lemma_decode_entry_of(chunks[k]);
        }
        lemma_split_join(entries, ',');
        lemma_decode_entries_of(chunks);
    }
}

/// Law: chunk `k` of a file holds the file's bytes from `4096 * k` up to
/// `4096 * (k + 1)` or the end of the file, its size is their number and its
/// checksum is the lower-case hexadecimal BLAKE3 digest of exactly those
/// bytes; there are as many chunks as it takes to cover the file.
pub proof fn lemma_chunk_layout(content: Seq<u8>, k: int)
    requires
        content.len() <= usize::MAX,
        0 <= k < spec_chunk_file(content).len(),
    ensures
        spec_chunk_file(content).len() * 4096 >= content.len(),
        spec_chunk_file(content).len() * 4096 < content.len() + 4096,
        spec_chunk_file(content)[k].index == k,
        spec_chunk_file(content)[k].data == content.subrange(
            k * 4096,
            if (k + 1) * 4096 <= content.len() { (k + 1) * 4096 } else { content.len() as int },
        ),
        spec_chunk_file(content)[k].size == spec_chunk_file(content)[k].data.len(),
        spec_chunk_file(content)[k].checksum == lower_hex(blake3_digest(spec_chunk_file(content)[k].data)),
{
    lemma_chunk_file_positional(content);
    let n = spec_chunk_file(content).len();
    assert(n == (content.len() + 4095) / 4096);
    assert(n * 4096 >= content.len() && n * 4096 < content.len() + 4096) by (nonlinear_arith)
        requires n == (content.len() + 4095) / 4096;
    assert(k * 4096 < content.len()) by (nonlinear_arith)
        requires 0 <= k < n, n == (content.len() + 4095) / 4096;
}

/// Law: the chunk list is written as one `index:checksum:size` entry per
/// chunk, the entries separated by commas; an added chunk adds a comma and
/// its entry at the end.
pub proof fn lemma_serialize_layout(chunks: Seq<ChunkView>, c: ChunkView)
    ensures
        spec_serialize_chunks(seq![c]) == decimal(c.index as nat) + seq![':'] + c.checksum + seq![':'] + decimal(c.size as nat),
        chunks.len() > 0 ==> spec_serialize_chunks(chunks.push(c)) == spec_serialize_chunks(chunks) + seq![',']
            + decimal(c.index as nat) + seq![':'] + c.checksum + seq![':'] + decimal(c.size as nat),
{
    assert(seq![c].map_values(|x: ChunkView| chunk_entry(x)) =~= seq![chunk_entry(c)]);
    let f = |x: ChunkView| chunk_entry(x);
    assert(chunks.push(c).map_values(f).drop_last() =~= chunks.map_values(f));
    assert(chunks.push(c).map_values(f).last() == chunk_entry(c));
}

} // verus!

