use paperpack::encode::encode;
use paperpack::errors::CodecError;
use paperpack::header::{Header, MetaHeader};
use paperpack::layout::{LayoutConfig, PaperSize, RecoveryFactor};
use paperpack::restore::reconstruct;
use paperpack::symbol::EcLevel;

fn codec_config() -> LayoutConfig {
    let page = PaperSize::A4.dimensions();
    LayoutConfig {
        page_width: page.width,
        page_height: page.height,
        margin_top: 4320,
        margin_right: 4320,
        margin_bottom: 4320,
        margin_left: 4320,
        module_length: 1000,
        row_count: 3,
        error_correction: EcLevel::Q,
        recovery_factor: RecoveryFactor::Percentage(50),
    }
}

fn sample_bytes(len: usize) -> Vec<u8> {
    let mut out = Vec::with_capacity(len);
    let mut state = 0x1234_5678u32;
    for _ in 0..len {
        state = state.wrapping_mul(1_664_525).wrapping_add(1_013_904_223);
        out.push((state >> 24) as u8);
    }
    out
}

fn encoded_sample(len: usize) -> (Vec<u8>, Vec<Vec<u8>>, usize) {
    let data = sample_bytes(len);
    let tag = b"release-tag".to_vec();
    let (plan, chunks) = encode(&data, &tag, &codec_config()).unwrap();
    (data, chunks, plan.data_shard_count)
}

#[test]
fn round_trip_full_chunk_list() {
    let (data, chunks, _) = encoded_sample(10_000);
    let restored = reconstruct(&chunks, &b"release-tag".to_vec()).unwrap();
    assert_eq!(restored, data);
}

#[test]
fn round_trip_empty_file() {
    let (data, chunks, _) = encoded_sample(0);
    let restored = reconstruct(&chunks, &b"release-tag".to_vec()).unwrap();
    assert_eq!(restored, data);
}

#[test]
fn round_trip_single_byte() {
    let (data, chunks, _) = encoded_sample(1);
    let restored = reconstruct(&chunks, &b"release-tag".to_vec()).unwrap();
    assert_eq!(restored, data);
}

#[test]
fn round_trip_shuffled_chunks() {
    let (data, chunks, _) = encoded_sample(5_000);
    // The metadata chunk arrives last, the payload chunks in reverse order.
    let mut shuffled: Vec<Vec<u8>> = chunks[1..].to_vec();
    shuffled.reverse();
    shuffled.push(chunks[0].clone());
    let restored = reconstruct(&shuffled, &b"release-tag".to_vec()).unwrap();
    assert_eq!(restored, data);
}

#[test]
fn resilience_minimal_subset() {
    let (data, chunks, original_count) = encoded_sample(10_000);
    // The metadata chunk plus exactly `original_count` distinct payload
    // chunks, taken from the middle of the recovery range.
    let mut subset = vec![chunks[0].clone()];
    subset.extend_from_slice(&chunks[30..30 + original_count]);
    let restored = reconstruct(&subset, &b"release-tag".to_vec()).unwrap();
    assert_eq!(restored, data);
}

#[test]
fn resilience_one_shard_short_fails() {
    let (_, chunks, original_count) = encoded_sample(10_000);
    let mut subset = vec![chunks[0].clone()];
    subset.extend_from_slice(&chunks[1..original_count]);
    assert_eq!(
        reconstruct(&subset, &b"release-tag".to_vec()).unwrap_err(),
        CodecError::InsufficientData
    );
}

#[test]
fn resilience_duplicates_are_harmless() {
    let (data, chunks, original_count) = encoded_sample(10_000);
    let mut subset = vec![chunks[0].clone(), chunks[0].clone()];
    subset.extend_from_slice(&chunks[1..1 + original_count]);
    subset.push(chunks[3].clone());
    subset.push(chunks[3].clone());
    let restored = reconstruct(&subset, &b"release-tag".to_vec()).unwrap();
    assert_eq!(restored, data);
}

#[test]
fn tamper_detection_flipped_byte() {
    let (_, mut chunks, _) = encoded_sample(10_000);
    // Corrupt one byte of one shard's body, past the 6-byte header.
    chunks[1][10] ^= 0x01;
    assert_eq!(
        reconstruct(&chunks, &b"release-tag".to_vec()).unwrap_err(),
        CodecError::ChecksumMismatch
    );
}

#[test]
fn meta_chunk_alone_is_insufficient() {
    let (_, chunks, _) = encoded_sample(10_000);
    let only_meta = vec![chunks[0].clone()];
    assert_eq!(
        reconstruct(&only_meta, &b"release-tag".to_vec()).unwrap_err(),
        CodecError::InsufficientData
    );
}

#[test]
fn duplicate_index_with_differing_bytes_conflicts() {
    let (_, chunks, original_count) = encoded_sample(10_000);
    let mut twisted = chunks[1].clone();
    twisted[8] ^= 0xFF;
    let mut list = vec![chunks[0].clone(), chunks[1].clone(), twisted];
    list.extend_from_slice(&chunks[2..1 + original_count]);
    assert_eq!(
        reconstruct(&list, &b"release-tag".to_vec()).unwrap_err(),
        CodecError::DuplicateConflict
    );
}

#[test]
fn payloads_without_meta_are_unusable() {
    let (_, chunks, _) = encoded_sample(10_000);
    let payloads_only: Vec<Vec<u8>> = chunks[1..].to_vec();
    assert_eq!(
        reconstruct(&payloads_only, &b"release-tag".to_vec()).unwrap_err(),
        CodecError::MissingMetadata
    );
}

#[test]
fn foreign_chunks_are_inconsistent() {
    let (_, chunks_a, _) = encoded_sample(10_000);
    let other = sample_bytes(9_999);
    let (_, chunks_b) = encode(&other, &b"release-tag".to_vec(), &codec_config()).unwrap();
    // A payload chunk of another document carries another identifier.
    let mixed = vec![chunks_a[0].clone(), chunks_b[1].clone()];
    assert_eq!(
        reconstruct(&mixed, &b"release-tag".to_vec()).unwrap_err(),
        CodecError::InconsistentMetadata
    );
    // Two differing metadata chunks are fatal as well.
    let two_metas = vec![chunks_a[0].clone(), chunks_b[0].clone()];
    assert_eq!(
        reconstruct(&two_metas, &b"release-tag".to_vec()).unwrap_err(),
        CodecError::InconsistentMetadata
    );
}

#[test]
fn truncated_chunk_is_a_format_error() {
    let (_, chunks, _) = encoded_sample(10_000);
    let list = vec![chunks[0].clone(), vec![0xFF, 0xFF, 1, 2, 3]];
    assert_eq!(
        reconstruct(&list, &b"release-tag".to_vec()).unwrap_err(),
        CodecError::Format
    );
}

#[test]
fn wrong_tag_fails_the_checksum() {
    let (_, chunks, _) = encoded_sample(2_000);
    assert_eq!(
        reconstruct(&chunks, &b"another-tag".to_vec()).unwrap_err(),
        CodecError::ChecksumMismatch
    );
}

#[test]
fn meta_chunk_records_the_document_hash() {
    // The hash of an empty file under an empty tag is the well-known SHA-512
    // digest of the empty string.
    let (plan, chunks) = encode(&Vec::new(), &Vec::new(), &codec_config()).unwrap();
    assert_eq!(plan.hash.len(), 64);
    assert_eq!(&plan.hash[0..4], &[0xcf, 0x83, 0xe1, 0x35]);
    assert_eq!(plan.hash[63], 0x3e);
    assert_eq!(plan.identifier, vec![0xcf, 0x83, 0xe1, 0x35]);
    match Header::read_from(&chunks[0]).unwrap().0 {
        Header::Meta(m) => {
            assert_eq!(m.hash, plan.hash);
            assert_eq!(m.identifier, plan.identifier);
            assert_eq!(m.original_count as usize, plan.data_shard_count);
            assert_eq!(m.recovery_count as usize, plan.recovery_shard_count);
            assert_eq!(m.shard_bytes as usize, plan.data_bytes_per_shard);
        }
        Header::Payload(_) => panic!("the first chunk must carry the metadata header"),
    }
}

#[test]
fn chunk_list_shape() {
    let (_, chunks, _) = encoded_sample(3_000);
    let (plan, _) = encode(
        &sample_bytes(3_000),
        &b"release-tag".to_vec(),
        &codec_config(),
    )
    .unwrap();
    assert_eq!(chunks.len(), plan.recovery_shard_count + 1);
    for (i, chunk) in chunks[1..].iter().enumerate() {
        match Header::read_from(chunk).unwrap() {
            (Header::Payload(p), used) => {
                assert_eq!(p.index as usize, i);
                assert_eq!(p.identifier, plan.identifier);
                assert_eq!(chunk.len() - used, plan.data_bytes_per_shard);
            }
            (Header::Meta(_), _) => panic!("payload chunks must follow the metadata chunk"),
        }
    }
}

#[test]
fn oversized_shard_count_is_a_config_error() {
    // Roughly nine megabytes need more data shards than the 16-bit header
    // field can carry at 128 bytes per shard.
    let data = vec![0u8; 9_000_000];
    assert_eq!(
        encode(&data, &b"release-tag".to_vec(), &codec_config()).unwrap_err(),
        CodecError::EncodingConfig
    );
}

#[test]
fn meta_with_unsupported_parameters_is_a_config_error() {
    // A metadata chunk declaring zero original shards: the erasure coder
    // rejects the configuration.
    let meta = Header::Meta(MetaHeader {
        identifier: vec![1, 2, 3, 4],
        hash: vec![0u8; 64],
        original_count: 0,
        recovery_count: 4,
        shard_bytes: 64,
    });
    let mut buf = Vec::new();
    meta.write_to(&mut buf);
    assert_eq!(
        reconstruct(&vec![buf], &Vec::new()).unwrap_err(),
        CodecError::EncodingConfig
    );
}
