use gilma::delta_sync::{ChunkInfo, DeltaError, DeltaSync, FileDelta};

fn applied(base: &[u8], delta: &FileDelta) -> Vec<u8> {
    match DeltaSync::apply_delta(base, delta) {
        Ok(v) => v,
        Err(_) => panic!("apply_delta failed"),
    }
}

fn decoded(text: &str) -> Vec<ChunkInfo> {
    match DeltaSync::deserialize_chunks(text) {
        Ok(v) => v,
        Err(DeltaError::InvalidNumber(t)) => panic!("unexpected invalid number {}", t),
    }
}

fn without_data(chunks: Vec<ChunkInfo>) -> Vec<ChunkInfo> {
    chunks
        .into_iter()
        .map(|chunk| ChunkInfo { index: chunk.index, checksum: chunk.checksum.clone(), size: chunk.size, data: Vec::new() })
        .collect()
}

#[test]
fn test_delta_sync() {
    let original = b"Hello, world! This is a test file for delta sync.";
    let modified = b"Hello, world! This is a modified test file for delta sync.";

    let original_chunks = DeltaSync::chunk_file(original);
    let _modified_chunks = DeltaSync::chunk_file(modified);

    let remote_chunks: Vec<ChunkInfo> = without_data(original_chunks);

    let delta = DeltaSync::calculate_delta(modified, &remote_chunks);

    let reconstructed = applied(original, &delta);

    assert_eq!(reconstructed, modified.to_vec());
}

#[test]
fn chunk_file_cuts_into_fixed_chunks() {
    let content: Vec<u8> = (0..10000u32).map(|i| (i % 251) as u8).collect();
    let chunks = DeltaSync::chunk_file(&content);
    assert_eq!(DeltaSync::CHUNK_SIZE, 4096);
    assert_eq!(chunks.len(), 3);
    assert_eq!(chunks[0].index, 0);
    assert_eq!(chunks[1].index, 1);
    assert_eq!(chunks[2].index, 2);
    assert_eq!(chunks[0].size, 4096);
    assert_eq!(chunks[1].size, 4096);
    assert_eq!(chunks[2].size, 1808);
    assert_eq!(chunks[0].data, content[..4096].to_vec());
    assert_eq!(chunks[2].data, content[8192..].to_vec());
}

#[test]
fn chunk_file_of_empty_content_has_no_chunks() {
    assert_eq!(DeltaSync::chunk_file(b"").len(), 0);
}

#[test]
fn chunk_checksum_is_blake3_hex() {
    let chunks = DeltaSync::chunk_file(b"abc");
    assert_eq!(chunks.len(), 1);
    assert_eq!(chunks[0].checksum, "6437b3ac38465133ffb63b75273a8db548c558465d79db03fd359c6cd5bd9d85");
    assert_eq!(chunks[0].checksum, blake3::hash(b"abc").to_hex().to_string());
    assert_eq!(chunks[0].size, 3);
}

#[test]
fn serialize_chunks_exact_text() {
    let chunks = vec![
        ChunkInfo { index: 0, checksum: "abc".to_string(), size: 3, data: vec![1, 2, 3] },
        ChunkInfo { index: 1, checksum: "def".to_string(), size: 5, data: Vec::new() },
    ];
    assert_eq!(DeltaSync::serialize_chunks(&chunks), "0:abc:3,1:def:5");
    assert_eq!(DeltaSync::serialize_chunks(&[]), "");
}

#[test]
fn deserialize_skips_empty_and_malformed_entries() {
    let chunks = decoded("0:abc:3,,bad,1:def:5,a:b:c:d");
    assert_eq!(chunks.len(), 2);
    assert_eq!(chunks[0].index, 0);
    assert_eq!(chunks[0].checksum, "abc");
    assert_eq!(chunks[0].size, 3);
    assert!(chunks[0].data.is_empty());
    assert_eq!(chunks[1].index, 1);
    assert_eq!(chunks[1].checksum, "def");
    assert_eq!(chunks[1].size, 5);
}

#[test]
fn deserialize_empty_text_gives_no_chunks() {
    assert_eq!(decoded("").len(), 0);
}

#[test]
fn deserialize_accepts_plus_sign() {
    let chunks = decoded("+5:x:+7");
    assert_eq!(chunks.len(), 1);
    assert_eq!(chunks[0].index, 5);
    assert_eq!(chunks[0].size, 7);
}

#[test]
fn deserialize_rejects_bad_index() {
    match DeltaSync::deserialize_chunks("0:abc:3,x:abc:3") {
        Err(DeltaError::InvalidNumber(t)) => assert_eq!(t, "x"),
        Ok(_) => panic!("expected an error"),
    }
}

#[test]
fn deserialize_rejects_bad_size() {
    match DeltaSync::deserialize_chunks("0:abc:-1") {
        Err(DeltaError::InvalidNumber(t)) => assert_eq!(t, "-1"),
        Ok(_) => panic!("expected an error"),
    }
    match DeltaSync::deserialize_chunks("0:abc:") {
        Err(DeltaError::InvalidNumber(t)) => assert_eq!(t, ""),
        Ok(_) => panic!("expected an error"),
    }
}

#[test]
fn serialized_chunks_read_back() {
    let content: Vec<u8> = (0..9000u32).map(|i| (i % 7) as u8).collect();
    let chunks = DeltaSync::chunk_file(&content);
    let text = DeltaSync::serialize_chunks(&chunks);
    let back = decoded(&text);
    assert_eq!(back.len(), chunks.len());
    for (a, b) in chunks.iter().zip(back.iter()) {
        assert_eq!(a.index, b.index);
        assert_eq!(a.checksum, b.checksum);
        assert_eq!(a.size, b.size);
        assert!(b.data.is_empty());
    }
}

#[test]
fn delta_of_identical_content_keeps_everything() {
    let content: Vec<u8> = (0..9000u32).map(|i| (i % 13) as u8).collect();
    let remote = without_data(DeltaSync::chunk_file(&content));
    let delta = DeltaSync::calculate_delta(&content, &remote);
    assert_eq!(delta.chunks_to_keep.len(), 3);
    assert!(delta.chunks_to_add.is_empty());
    assert!(delta.chunks_to_remove.is_empty());
    for (kept, chunk) in delta.chunks_to_keep.iter().zip(DeltaSync::chunk_file(&content).iter()) {
        assert_eq!(kept.index, chunk.index);
        assert_eq!(kept.checksum, chunk.checksum);
        assert_eq!(kept.size, chunk.size);
        assert_eq!(kept.data, chunk.data);
    }
    assert_eq!(applied(&content, &delta), content);
}

#[test]
fn delta_of_changed_middle_chunk() {
    let base: Vec<u8> = (0..9000u32).map(|i| (i % 13) as u8).collect();
    let mut modified = base.clone();
    modified[5000] = 200;
    let remote = without_data(DeltaSync::chunk_file(&base));
    let delta = DeltaSync::calculate_delta(&modified, &remote);
    assert_eq!(delta.chunks_to_keep.len(), 2);
    assert_eq!(delta.chunks_to_keep[0].index, 0);
    assert_eq!(delta.chunks_to_keep[1].index, 2);
    assert_eq!(delta.chunks_to_add.len(), 1);
    assert_eq!(delta.chunks_to_add[0].0, 1);
    assert_eq!(delta.chunks_to_add[0].1, modified[4096..8192].to_vec());
    assert_eq!(delta.chunks_to_remove, vec![1]);
    assert_eq!(applied(&base, &delta), modified);
}

#[test]
fn delta_of_shortened_file_removes_tail_chunks() {
    let base: Vec<u8> = (0..9000u32).map(|i| (i % 13) as u8).collect();
    let modified = base[..4096].to_vec();
    let remote = without_data(DeltaSync::chunk_file(&base));
    let delta = DeltaSync::calculate_delta(&modified, &remote);
    assert_eq!(delta.chunks_to_keep.len(), 1);
    assert!(delta.chunks_to_add.is_empty());
    assert_eq!(delta.chunks_to_remove, vec![1, 2]);
    assert_eq!(applied(&base, &delta), modified);
}

#[test]
fn delta_of_grown_file_adds_new_chunks() {
    let base: Vec<u8> = vec![7u8; 100];
    let mut modified = base.clone();
    modified.extend(vec![9u8; 5000]);
    let remote = without_data(DeltaSync::chunk_file(&base));
    let delta = DeltaSync::calculate_delta(&modified, &remote);
    assert!(delta.chunks_to_keep.is_empty());
    assert_eq!(delta.chunks_to_add.len(), 2);
    assert_eq!(delta.chunks_to_add[0].0, 0);
    assert_eq!(delta.chunks_to_add[1].0, 1);
    assert_eq!(delta.chunks_to_remove, vec![0]);
    assert_eq!(applied(&base, &delta), modified);
}

#[test]
fn delta_against_empty_remote_adds_all() {
    let modified = b"fresh file".to_vec();
    let delta = DeltaSync::calculate_delta(&modified, &[]);
    assert_eq!(delta.chunks_to_add.len(), 1);
    assert!(delta.chunks_to_remove.is_empty());
    assert!(delta.chunks_to_keep.is_empty());
    assert_eq!(applied(b"", &delta), modified);
}

#[test]
fn apply_delta_by_hand() {
    let base: Vec<u8> = vec![1u8; 5000];
    let keep = ChunkInfo { index: 0, checksum: String::new(), size: 4096, data: Vec::new() };
    let delta = FileDelta { chunks_to_add: vec![(1, vec![2, 3])], chunks_to_remove: vec![1], chunks_to_keep: vec![keep] };
    let mut expected = vec![1u8; 4096];
    expected.extend(vec![2u8, 3]);
    assert_eq!(applied(&base, &delta), expected);
}

#[test]
fn apply_empty_delta_gives_first_chunk_only_when_kept() {
    let delta = FileDelta { chunks_to_add: Vec::new(), chunks_to_remove: Vec::new(), chunks_to_keep: Vec::new() };
    assert_eq!(applied(b"abc", &delta), Vec::<u8>::new());
    let keep = ChunkInfo { index: 0, checksum: String::new(), size: 3, data: Vec::new() };
    let delta = FileDelta { chunks_to_add: Vec::new(), chunks_to_remove: Vec::new(), chunks_to_keep: vec![keep] };
    assert_eq!(applied(b"abc", &delta), b"abc".to_vec());
}

#[test]
fn apply_delta_prefers_added_over_kept() {
    let keep = ChunkInfo { index: 0, checksum: String::new(), size: 3, data: Vec::new() };
    let delta = FileDelta { chunks_to_add: vec![(0, b"xyz".to_vec()), (0, b"second".to_vec())], chunks_to_remove: Vec::new(), chunks_to_keep: vec![keep] };
    assert_eq!(applied(b"abc", &delta), b"xyz".to_vec());
}

#[test]
fn apply_delta_skips_kept_index_missing_from_base() {
    let keep = ChunkInfo { index: 3, checksum: String::new(), size: 3, data: Vec::new() };
    let delta = FileDelta { chunks_to_add: vec![(1, b"B".to_vec())], chunks_to_remove: Vec::new(), chunks_to_keep: vec![keep] };
    assert_eq!(applied(b"abc", &delta), b"B".to_vec());
}
