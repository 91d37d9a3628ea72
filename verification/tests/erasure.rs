use c0mpute::erasure::{decode, encode, shards_from_buffers, join_data_shards, ErasureError, Shard, DEFAULT_K, DEFAULT_N, DEFAULT_PARITY};

fn round_trip(data: &[u8], drop: &[u8]) -> Vec<u8> {
    let (shards, len) = encode(data, DEFAULT_K, DEFAULT_PARITY).unwrap();
    let mut received: Vec<Option<Shard>> = shards.into_iter().map(Some).collect();
    for &i in drop {
        received[i as usize] = None;
    }
    decode(received, DEFAULT_K, DEFAULT_PARITY, len).unwrap()
}

#[test]
fn round_trip_no_loss() {
    let data = b"hello c0mpute storage";
    assert_eq!(round_trip(data, &[]), data);
}

#[test]
fn survives_four_shard_loss() {
    // 4 lost = exactly the parity budget for RS 10/14.
    let data = b"the quick brown fox jumps over the lazy dog".repeat(100);
    // Drop 2 data shards + 2 parity shards.
    assert_eq!(round_trip(&data, &[1, 5, 10, 13]), data);
}

#[test]
fn fails_on_five_shard_loss() {
    let data = b"will this survive?".repeat(100);
    let (shards, len) = encode(&data, DEFAULT_K, DEFAULT_PARITY).unwrap();
    let mut received: Vec<Option<Shard>> = shards.into_iter().map(Some).collect();
    for i in [0, 1, 2, 3, 4] {
        received[i] = None;
    }
    let err = decode(received, DEFAULT_K, DEFAULT_PARITY, len).unwrap_err();
    assert!(err.message().contains("at least"));
}

#[test]
fn empty_data_roundtrips() {
    let data: &[u8] = b"";
    let (shards, len) = encode(data, DEFAULT_K, DEFAULT_PARITY).unwrap();
    assert_eq!(len, 0);
    let received: Vec<Option<Shard>> = shards.into_iter().map(Some).collect();
    let out = decode(received, DEFAULT_K, DEFAULT_PARITY, len).unwrap();
    assert_eq!(out, b"");
}

#[test]
fn default_scheme_counts() {
    assert_eq!(DEFAULT_K, 10);
    assert_eq!(DEFAULT_N, 14);
    assert_eq!(DEFAULT_PARITY, 4);
}

#[test]
fn encode_pads_and_splits_data_shards() {
    // 21 bytes over 10 data shards: 3 bytes per shard, last shards zero-padded.
    let data: Vec<u8> = (1..=21).collect();
    let (shards, len) = encode(&data, DEFAULT_K, DEFAULT_PARITY).unwrap();
    assert_eq!(len, 21);
    assert_eq!(shards.len(), 14);
    for (i, s) in shards.iter().enumerate() {
        assert_eq!(s.index as usize, i);
        assert_eq!(s.bytes.len(), 3);
    }
    assert_eq!(shards[0].bytes, vec![1, 2, 3]);
    assert_eq!(shards[6].bytes, vec![19, 20, 21]);
    assert_eq!(shards[7].bytes, vec![0, 0, 0]);
    assert_eq!(shards[9].bytes, vec![0, 0, 0]);
}

#[test]
fn empty_data_gets_one_byte_shards() {
    let (shards, _) = encode(b"", 3, 2).unwrap();
    assert_eq!(shards.len(), 5);
    for s in &shards {
        assert_eq!(s.bytes, vec![0]);
    }
}

#[test]
fn parity_is_computed_not_copied() {
    // Parity of non-zero data is non-zero and rebuilds a lost data shard.
    let data = b"abcdefgh".to_vec();
    let (shards, len) = encode(&data, 4, 2).unwrap();
    assert!(shards[4].bytes.iter().any(|&b| b != 0) || shards[5].bytes.iter().any(|&b| b != 0));
    let mut received: Vec<Option<Shard>> = shards.into_iter().map(Some).collect();
    received[0] = None;
    received[2] = None;
    assert_eq!(decode(received, 4, 2, len).unwrap(), data);
}

#[test]
fn encode_rejects_zero_counts() {
    assert!(matches!(encode(b"x", 0, 4), Err(ErasureError::ZeroShardCount)));
    assert!(matches!(encode(b"x", 10, 0), Err(ErasureError::ZeroShardCount)));
    assert_eq!(
        encode(b"x", 0, 0).unwrap_err().message(),
        "erasure encode: k and parity must be > 0"
    );
}

#[test]
fn encode_rejects_too_many_shards() {
    let err = encode(b"x", 200, 57).unwrap_err();
    assert!(matches!(err, ErasureError::CodecSetup(_)));
    assert_eq!(err.message(), "ReedSolomon::new");
    assert!(encode(b"x", 200, 56).is_ok());
}

#[test]
fn decode_rejects_wrong_slot_count() {
    let (shards, len) = encode(b"hello", 10, 4).unwrap();
    let mut received: Vec<Option<Shard>> = shards.into_iter().map(Some).collect();
    received.pop();
    let err = decode(received, 10, 4, len).unwrap_err();
    assert!(matches!(err, ErasureError::WrongShardCount { expected: 14, got: 13 }));
    assert_eq!(err.message(), "erasure decode: expected 14 positions, got 13");
}

#[test]
fn decode_reports_shortage() {
    let received: Vec<Option<Shard>> = vec![None; 14];
    let err = decode(received, 10, 4, 0).unwrap_err();
    assert!(matches!(err, ErasureError::TooFewShards { need: 10, got: 0 }));
    assert_eq!(err.message(), "erasure decode: need at least 10 shards, got 0");
}

#[test]
fn decode_rejects_mismatched_shard_lengths() {
    let (shards, len) = encode(b"hello world, hello world", 4, 2).unwrap();
    let mut received: Vec<Option<Shard>> = shards.into_iter().map(Some).collect();
    received[5] = None;
    if let Some(s) = received[1].as_mut() {
        s.bytes.push(7);
    }
    let err = decode(received, 4, 2, len).unwrap_err();
    assert!(matches!(err, ErasureError::CodecReconstruct(_)));
    assert_eq!(err.message(), "ReedSolomon::reconstruct");
}

#[test]
fn decode_ignores_shard_index_field() {
    // Only the slot position matters.
    let (shards, len) = encode(b"position", 2, 1).unwrap();
    let received: Vec<Option<Shard>> = shards
        .into_iter()
        .map(|mut s| {
            s.index = 99;
            Some(s)
        })
        .collect();
    assert_eq!(decode(received, 2, 1, len).unwrap(), b"position");
}

#[test]
fn decode_truncates_to_original_len() {
    let (shards, _) = encode(b"abcdef", 2, 1).unwrap();
    let received: Vec<Option<Shard>> = shards.into_iter().map(Some).collect();
    assert_eq!(decode(received, 2, 1, 4).unwrap(), b"abcd");
}

#[test]
fn shards_are_numbered_by_position() {
    let shards = shards_from_buffers(vec![vec![1], vec![2, 3], vec![]]);
    assert_eq!(shards.len(), 3);
    assert_eq!(shards[1], Shard { index: 1, bytes: vec![2, 3] });
    assert_eq!(shards[2].index, 2);
}

#[test]
fn join_concatenates_data_slots_and_cuts() {
    let slots = vec![Some(vec![1, 2]), Some(vec![3, 4]), Some(vec![9, 9])];
    assert_eq!(join_data_shards(&slots, 2, 3).unwrap(), vec![1, 2, 3]);
    assert_eq!(join_data_shards(&slots, 2, 10).unwrap(), vec![1, 2, 3, 4]);
    let holes = vec![Some(vec![1]), None, Some(vec![3])];
    let err = join_data_shards(&holes, 2, 2).unwrap_err();
    assert!(matches!(err, ErasureError::MissingDataShard));
    assert_eq!(err.message(), "RS reconstruct left data slot empty");
}

#[test]
fn all_data_shards_present_ignores_parity_contents() {
    let data = b"0123456789abcdefghij".to_vec();
    let (shards, len) = encode(&data, 4, 2).unwrap();
    let mut received: Vec<Option<Shard>> = shards.into_iter().map(Some).collect();
    for b in received[4].as_mut().unwrap().bytes.iter_mut() {
        *b ^= 0x55;
    }
    received[5] = None;
    assert_eq!(decode(received, 4, 2, len).unwrap(), data);
}

#[test]
fn decode_errors_for_any_original_len() {
    let err = decode(vec![None; 3], 10, 4, usize::MAX).unwrap_err();
    assert!(matches!(err, ErasureError::WrongShardCount { expected: 14, got: 3 }));
    let err = decode(vec![None; 14], 10, 4, usize::MAX).unwrap_err();
    assert!(matches!(err, ErasureError::TooFewShards { need: 10, got: 0 }));
}
