use paperpack::errors::CodecError;
use paperpack::header::{Header, MetaHeader, PayloadHeader};

fn payload(index: u16) -> Header {
    Header::Payload(PayloadHeader {
        index,
        identifier: vec![0xAA, 0xBB, 0xCC, 0xDD],
    })
}

fn sample_meta() -> Header {
    let mut hash = Vec::new();
    for i in 0..64u32 {
        hash.push((i * 3 % 251) as u8);
    }
    Header::Meta(MetaHeader {
        identifier: vec![hash[0], hash[1], hash[2], hash[3]],
        hash,
        original_count: 79,
        recovery_count: 124,
        shard_bytes: 128,
    })
}

#[test]
fn header_payload_exact_bytes() {
    let h = Header::Payload(PayloadHeader {
        index: 0x0102,
        identifier: vec![1, 2, 3, 4],
    });
    let mut out = Vec::new();
    h.write_to(&mut out);
    assert_eq!(out, vec![0x02, 0x01, 1, 2, 3, 4]);
}

#[test]
fn header_round_trip_payload_boundaries() {
    for index in [0u16, 1, 0x0102, 0xFFFE] {
        let h = payload(index);
        let mut out = Vec::new();
        h.write_to(&mut out);
        assert_eq!(out.len(), 6);
        let (parsed, used) = Header::read_from(&out).unwrap();
        assert_eq!(used, 6);
        match parsed {
            Header::Payload(p) => {
                assert_eq!(p.index, index);
                assert_eq!(p.identifier, vec![0xAA, 0xBB, 0xCC, 0xDD]);
            }
            Header::Meta(_) => panic!("parsed a metadata header from payload bytes"),
        }
    }
}

#[test]
fn header_round_trip_meta_sentinel() {
    let h = sample_meta();
    let mut out = Vec::new();
    h.write_to(&mut out);
    assert_eq!(out.len(), 82);
    assert_eq!(&out[0..2], &[0xFF, 0xFF]);
    let (parsed, used) = Header::read_from(&out).unwrap();
    assert_eq!(used, 82);
    match (parsed, h) {
        (Header::Meta(p), Header::Meta(orig)) => {
            assert_eq!(p.identifier, orig.identifier);
            assert_eq!(p.hash, orig.hash);
            assert_eq!(p.original_count, orig.original_count);
            assert_eq!(p.recovery_count, orig.recovery_count);
            assert_eq!(p.shard_bytes, orig.shard_bytes);
        }
        _ => panic!("meta header did not round trip"),
    }
}

#[test]
fn header_rejects_short_buffers() {
    assert_eq!(Header::read_from(&vec![]).unwrap_err(), CodecError::Format);
    assert_eq!(Header::read_from(&vec![7]).unwrap_err(), CodecError::Format);
    // A payload header needs six bytes.
    assert_eq!(
        Header::read_from(&vec![1, 0, 9, 9]).unwrap_err(),
        CodecError::Format
    );
    // A metadata header needs 82 bytes.
    let mut short_meta = vec![0xFF, 0xFF];
    short_meta.extend_from_slice(&[0u8; 60]);
    assert_eq!(
        Header::read_from(&short_meta).unwrap_err(),
        CodecError::Format
    );
}

#[test]
fn header_payload_leaves_remainder() {
    let mut out = Vec::new();
    payload(7).write_to(&mut out);
    out.extend_from_slice(&[9, 8, 7, 6]);
    let (_, used) = Header::read_from(&out).unwrap();
    assert_eq!(used, 6);
    assert_eq!(&out[used..], &[9, 8, 7, 6]);
}
