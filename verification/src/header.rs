use crate::bytes::{
    le_bytes, le_val, lemma_le_round_trip, lemma_le_val_bound, lemma_pow256_values, push_le_u16,
    push_le_u64, read_le_u16, read_le_u64, subvec,
};
use crate::errors::CodecError;
use vstd::prelude::*;

verus! {

/// The byte length of the document identifier, a prefix of the document hash.
pub const IDENTIFIER_LENGTH: usize = 4;

/// The 16-bit index value reserved for metadata chunks.
pub const META_INDEX: u16 = 0xFFFF;

/// Header carried by the one metadata chunk of a document.
#[derive(Debug, PartialEq)]
pub struct MetaHeader {
    /// Identifier for this document.
    pub identifier: Vec<u8>,
    /// Hash of the original input file.
    pub hash: Vec<u8>,
    /// Number of original input shards; none of these are ever rendered.
    pub original_count: u16,
    /// Number of total recovery shards.
    pub recovery_count: u16,
    /// Number of bytes per shard, excluding headers.
    pub shard_bytes: u64,
}

impl MetaHeader {
    /// Serialized length of the fields that follow the index and identifier.
    pub const LENGTH: usize = 76;
}

/// Header carried by every payload chunk.
#[derive(Debug)]
pub struct PayloadHeader {
    /// Index of a recovery shard; any 16-bit value except the metadata
    /// sentinel.
    pub index: u16,
    /// Identifier for this document.
    pub identifier: Vec<u8>,
}

impl PayloadHeader {
    /// Serialized length of a payload header.
    pub const LENGTH: usize = 6;
}

/// Header written at the start of one chunk.
#[derive(Debug)]
pub enum Header {
    Meta(MetaHeader),
    Payload(PayloadHeader),
}

/// Mathematical image of a [`MetaHeader`].
#[verifier::ext_equal]
pub ghost struct MetaView {
    pub identifier: Seq<u8>,
    pub hash: Seq<u8>,
    pub original_count: u16,
    pub recovery_count: u16,
    pub shard_bytes: u64,
}

/// Mathematical image of a [`PayloadHeader`].
#[verifier::ext_equal]
pub ghost struct PayloadView {
    pub index: u16,
    pub identifier: Seq<u8>,
}

/// Mathematical image of a [`Header`].
#[verifier::ext_equal]
pub ghost enum HeaderView {
    Meta(MetaView),
    Payload(PayloadView),
}

impl MetaView {
    pub open spec fn wf(self) -> bool {
        self.identifier.len() == 4 && self.hash.len() == 64
    }
}

impl PayloadView {
    pub open spec fn wf(self) -> bool {
        self.index != 0xFFFF && self.identifier.len() == 4
    }
}

impl HeaderView {
    pub open spec fn wf(self) -> bool {
        match self {
            HeaderView::Meta(m) => m.wf(),
            HeaderView::Payload(p) => p.wf(),
        }
    }
}

impl View for MetaHeader {
    type V = MetaView;

    open spec fn view(&self) -> MetaView {
        MetaView {
            identifier: self.identifier@,
            hash: self.hash@,
            original_count: self.original_count,
            recovery_count: self.recovery_count,
            shard_bytes: self.shard_bytes,
        }
    }
}

impl View for PayloadHeader {
    type V = PayloadView;

    open spec fn view(&self) -> PayloadView {
        PayloadView { index: self.index, identifier: self.identifier@ }
    }
}

impl View for Header {
    type V = HeaderView;

    open spec fn view(&self) -> HeaderView {
        match self {
            Header::Meta(m) => HeaderView::Meta(m@),
            Header::Payload(p) => HeaderView::Payload(p@),
        }
    }
}

/// The serialized bytes of a metadata header.
pub open spec fn meta_view_bytes(m: MetaView) -> Seq<u8> {
    le_bytes(0xFFFF, 2) + m.identifier + m.hash + le_bytes(m.original_count as int, 2) + le_bytes(
        m.recovery_count as int,
        2,
    ) + le_bytes(m.shard_bytes as int, 8)
}

/// The serialized bytes of a payload header.
pub open spec fn payload_view_bytes(p: PayloadView) -> Seq<u8> {
    le_bytes(p.index as int, 2) + p.identifier
}

/// The serialized bytes of a header.
pub open spec fn header_bytes(h: HeaderView) -> Seq<u8> {
    match h {
        HeaderView::Meta(m) => meta_view_bytes(m),
        HeaderView::Payload(p) => payload_view_bytes(p),
    }
}

/// The serialized length of a header.
pub open spec fn header_len(h: HeaderView) -> int {
    match h {
        HeaderView::Meta(_) => 82,
        HeaderView::Payload(_) => 6,
    }
}

/// Parses the header at the start of `bytes`: the parsed header together with
/// the count of bytes it occupies, or nothing when `bytes` is too short.
pub open spec fn parse_header(bytes: Seq<u8>) -> Option<(HeaderView, int)> {
    if bytes.len() < 2 {
        None
    } else {
        let idx = le_val(bytes.subrange(0, 2));
        if idx == 0xFFFF {
            if bytes.len() < 82 {
                None
            } else {
                Some(
                    (
                        HeaderView::Meta(
                            MetaView {
                                identifier: bytes.subrange(2, 6),
                                hash: bytes.subrange(6, 70),
                                original_count: le_val(bytes.subrange(70, 72)) as u16,
                                recovery_count: le_val(bytes.subrange(72, 74)) as u16,
                                shard_bytes: le_val(bytes.subrange(74, 82)) as u64,
                            },
                        ),
                        82,
                    ),
                )
            }
        } else {
            if bytes.len() < 6 {
                None
            } else {
                Some(
                    (
                        HeaderView::Payload(
                            PayloadView { index: idx as u16, identifier: bytes.subrange(2, 6) },
                        ),
                        6,
                    ),
                )
            }
        }
    }
}

impl Header {
    pub open spec fn wf(&self) -> bool {
        self@.wf()
    }

    /// Reads the header at the start of `bytes`, returning it together with
    /// the number of bytes it occupied; payload bytes follow for the caller.
    pub fn read_from(bytes: &Vec<u8>) -> (r: Result<(Header, usize), CodecError>)
        ensures
            match r {
                Ok(p) => parse_header(bytes@) == Some((p.0@, p.1 as int)) && p.0.wf() && p.1
                    <= bytes@.len(),
                Err(e) => parse_header(bytes@) is None && e == CodecError::Format,
            },
    {
        let n = bytes.len();
        if n < 2 {
            return Err(CodecError::Format);
        }
        let idx = read_le_u16(bytes, 0);
        proof {
            lemma_le_val_bound(bytes@.subrange(0, 2));
            lemma_pow256_values();
        }
        if idx == META_INDEX {
            if n < 82 {
                return Err(CodecError::Format);
            }
            let identifier = subvec(bytes, 2, 6);
            let hash = subvec(bytes, 6, 70);
            let original_count = read_le_u16(bytes, 70);
            let recovery_count = read_le_u16(bytes, 72);
            let shard_bytes = read_le_u64(bytes, 74);
            proof {
                lemma_le_val_bound(bytes@.subrange(70, 72));
                lemma_le_val_bound(bytes@.subrange(72, 74));
                lemma_le_val_bound(bytes@.subrange(74, 82));
            }
            Ok(
                (
                    Header::Meta(
                        MetaHeader {
                            identifier,
                            hash,
                            original_count,
                            recovery_count,
                            shard_bytes,
                        },
                    ),
                    82,
                ),
            )
        } else {
            if n < 6 {
                return Err(CodecError::Format);
            }
            let identifier = subvec(bytes, 2, 6);
            Ok((Header::Payload(PayloadHeader { index: idx, identifier }), 6))
        }
    }

    /// Appends the serialized form of this header to `out`.
    pub fn write_to(&self, out: &mut Vec<u8>)
        requires
            self.wf(),
            old(out)@.len() + 82 <= usize::MAX,
        ensures
            final(out)@ == old(out)@ + header_bytes(self@),
    {
        match self {
            Header::Meta(m) => {
                push_le_u16(out, META_INDEX);
                crate::bytes::append_bytes(out, &m.identifier);
                crate::bytes::append_bytes(out, &m.hash);
                push_le_u16(out, m.original_count);
                push_le_u16(out, m.recovery_count);
                push_le_u64(out, m.shard_bytes);
                proof {
                    assert(out@ =~= old(out)@ + header_bytes(self@));
                }
            },
            Header::Payload(p) => {
                push_le_u16(out, p.index);
                crate::bytes::append_bytes(out, &p.identifier);
                proof {
                    assert(out@ =~= old(out)@ + header_bytes(self@));
                }
            },
        }
    }
}

/// Round trip of the header protocol: parsing the serialized bytes of any
/// well-formed header yields that header back, consuming exactly its length.
pub proof fn lemma_header_round_trip(h: HeaderView)
    requires
        h.wf(),
    ensures
        parse_header(header_bytes(h)) == Some((h, header_len(h))),
{
    lemma_pow256_values();
    match h {
        HeaderView::Meta(m) => {
            let s = header_bytes(h);
            assert(s.len() == 82);
            assert(s.subrange(0, 2) =~= le_bytes(0xFFFF, 2));
            lemma_le_round_trip(0xFFFF, 2);
            assert(s.subrange(2, 6) =~= m.identifier);
            assert(s.subrange(6, 70) =~= m.hash);
            assert(s.subrange(70, 72) =~= le_bytes(m.original_count as int, 2));
            assert(s.subrange(72, 74) =~= le_bytes(m.recovery_count as int, 2));
            assert(s.subrange(74, 82) =~= le_bytes(m.shard_bytes as int, 8));
            lemma_le_round_trip(m.original_count as int, 2);
            lemma_le_round_trip(m.recovery_count as int, 2);
            lemma_le_round_trip(m.shard_bytes as int, 8);
            let parsed = parse_header(s)->Some_0.0;
            assert(parsed matches HeaderView::Meta(pm) && pm =~= m);
        },
        HeaderView::Payload(p) => {
            let s = header_bytes(h);
            assert(s.len() == 6);
            assert(s.subrange(0, 2) =~= le_bytes(p.index as int, 2));
            lemma_le_round_trip(p.index as int, 2);
            assert(s.subrange(2, 6) =~= p.identifier);
            let parsed = parse_header(s)->Some_0.0;
            assert(parsed matches HeaderView::Payload(pp) && pp =~= p);
        },
    }
}

} // verus!
