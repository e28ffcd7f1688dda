use crate::arith::{div_up, lemma_div_up, mul_checked};
use crate::bytes::{append_bytes, le_bytes, push_le_u64, push_zeros, subvec, zero_seq};
use crate::erasure::{rs_encode, rs_params_check, rs_params_ok, rs_recovery};
use crate::errors::CodecError;
use crate::hashing::{sha512_digest, sha512_of};
use crate::header::{header_bytes, Header, HeaderView, MetaHeader, MetaView, PayloadHeader, PayloadView};
use crate::layout::{compute, plan_ok, spec_dbps, spec_dsc, spec_rsc, LayoutConfig, Options};
use vstd::prelude::*;

verus! {

/// The document hash: the hash of the file bytes followed by the
/// build/version tag.
pub open spec fn doc_hash(data: Seq<u8>, tag: Seq<u8>) -> Seq<u8> {
    sha512_of(data + tag)
}

/// The document identifier: a short prefix of the document hash.
pub open spec fn doc_id(data: Seq<u8>, tag: Seq<u8>) -> Seq<u8> {
    doc_hash(data, tag).take(4)
}

/// The padded buffer length for a file of `len` bytes at shard size `sb`: the
/// least multiple of `sb` that holds the file plus its 8-byte trailer.
pub open spec fn padded_size(len: int, sb: int) -> int {
    div_up(len + 8, sb) * sb
}

/// The padded buffer: the file bytes, zero padding, and the original length
/// as a trailing 8-byte little-endian integer.
pub open spec fn padded_bytes(data: Seq<u8>, sb: int) -> Seq<u8> {
    data + zero_seq((padded_size(data.len() as int, sb) - data.len() - 8) as nat) + le_bytes(
        data.len() as int,
        8,
    )
}

/// The padded buffer sliced into equal data shards.
pub open spec fn shard_slices(data: Seq<u8>, sb: int) -> Seq<Seq<u8>> {
    Seq::new(
        div_up(data.len() as int + 8, sb) as nat,
        |i: int| padded_bytes(data, sb).subrange(i * sb, (i + 1) * sb),
    )
}

/// The metadata header a document is encoded with.
pub open spec fn meta_of(data: Seq<u8>, tag: Seq<u8>, oc: u16, rc: u16, sb: u64) -> MetaView {
    MetaView {
        identifier: doc_id(data, tag),
        hash: doc_hash(data, tag),
        original_count: oc,
        recovery_count: rc,
        shard_bytes: sb,
    }
}

/// The full bytes of the one metadata chunk.
pub open spec fn meta_chunk_bytes(data: Seq<u8>, tag: Seq<u8>, oc: u16, rc: u16, sb: u64) -> Seq<
    u8,
> {
    header_bytes(HeaderView::Meta(meta_of(data, tag, oc, rc, sb)))
}

/// The full bytes of the payload chunk carrying recovery shard `j`.
pub open spec fn payload_chunk_bytes(
    data: Seq<u8>,
    tag: Seq<u8>,
    rc: int,
    sb: int,
    j: int,
) -> Seq<u8> {
    header_bytes(
        HeaderView::Payload(PayloadView { index: j as u16, identifier: doc_id(data, tag) }),
    ) + rs_recovery(shard_slices(data, sb), rc)[j]
}

/// What holds of the chunk list an encode of `data` under `tag` produces,
/// with `oc` data shards, `rc` recovery shards and `sb` bytes per shard.
pub open spec fn encode_outcome(
    data: Seq<u8>,
    tag: Seq<u8>,
    oc: u16,
    rc: u16,
    sb: u64,
    cs: Seq<Seq<u8>>,
) -> bool {
    &&& oc as int == div_up(data.len() as int + 8, sb as int)
    &&& oc <= rc
    &&& rs_params_ok(oc as int, rc as int, sb as int)
    &&& data.len() < 0x1_0000_0000_0000_0000
    &&& oc as int * sb as int <= usize::MAX
    &&& doc_hash(data, tag).len() == 64
    &&& cs.len() == rc as int + 1
    &&& cs[0] == meta_chunk_bytes(data, tag, oc, rc, sb)
    &&& (forall|j: int|
        0 <= j < rc as int ==> cs[j + 1] == payload_chunk_bytes(data, tag, rc as int, sb as int, j))
    &&& (forall|j: int|
        0 <= j < rc as int ==> (#[trigger] rs_recovery(shard_slices(data, sb as int), rc as int)[j]).len()
            == sb as int)
}

/// When an encode succeeds: the layout search succeeds, the shard counts fit
/// the 16-bit header fields, the padded buffer is addressable, and the
/// erasure coder supports the configuration.
pub open spec fn encode_ok(cfg: LayoutConfig, ds: int) -> bool {
    &&& plan_ok(cfg, ds)
    &&& spec_dsc(cfg, ds) <= 65535
    &&& spec_rsc(cfg, ds) <= 65535
    &&& spec_dsc(cfg, ds) * spec_dbps(cfg) + 82 <= usize::MAX
    &&& rs_params_ok(spec_dsc(cfg, ds), spec_rsc(cfg, ds), spec_dbps(cfg))
}

/// Encodes a file: hashes it under `tag`, plans the layout, pads and slices
/// the bytes into data shards, derives the recovery shards, and returns the
/// plan together with the chunk list — the metadata chunk first, then one
/// payload chunk per recovery shard in index order.
pub fn encode(data: &Vec<u8>, tag: &Vec<u8>, cfg: &LayoutConfig) -> (r: Result<
    (Options, Vec<Vec<u8>>),
    CodecError,
>)
    requires
        cfg.module_length >= 1,
        data@.len() <= usize::MAX - 8,
    ensures
        r is Ok <==> encode_ok(*cfg, data@.len() as int),
        !plan_ok(*cfg, data@.len() as int) ==> r == Err::<(Options, Vec<Vec<u8>>), CodecError>(
            CodecError::Planning,
        ),
        plan_ok(*cfg, data@.len() as int) && !encode_ok(*cfg, data@.len() as int) ==> r
            == Err::<(Options, Vec<Vec<u8>>), CodecError>(CodecError::EncodingConfig),
        r matches Ok(p) ==> {
            &&& p.0.data_shard_count as int == spec_dsc(*cfg, data@.len() as int)
            &&& p.0.recovery_shard_count as int == spec_rsc(*cfg, data@.len() as int)
            &&& p.0.data_bytes_per_shard as int == spec_dbps(*cfg)
            &&& p.0.identifier@ == doc_id(data@, tag@)
            &&& p.0.hash@ == doc_hash(data@, tag@)
            &&& encode_outcome(
                data@,
                tag@,
                p.0.data_shard_count as u16,
                p.0.recovery_shard_count as u16,
                p.0.data_bytes_per_shard as u64,
                p.1@.map_values(|c: Vec<u8>| c@),
            )
        },
{
    let digest = sha512_digest(data, tag);
    let identifier = subvec(&digest, 0, 4);
    proof {
        assert(identifier@ =~= doc_id(data@, tag@));
    }
    let plan = match compute(cfg, data.len(), &identifier, &digest) {
        Ok(p) => p,
        Err(e) => {
            return Err(e);
        },
    };
    let d = plan.data_bytes_per_shard;
    let dsc = plan.data_shard_count;
    let rsc = plan.recovery_shard_count;
    if dsc > 65535 || rsc > 65535 {
        return Err(CodecError::EncodingConfig);
    }
    let padded_len = match mul_checked(dsc, d) {
        Some(x) => x,
        None => {
            return Err(CodecError::EncodingConfig);
        },
    };
    if padded_len > usize::MAX - 82 {
        return Err(CodecError::EncodingConfig);
    }
    if !rs_params_check(dsc, rsc, d as u64) {
        return Err(CodecError::EncodingConfig);
    }
    proof {
        lemma_div_up(data@.len() as int + 8, d as int);
    }
    assert(padded_len >= data@.len() + 8);
    assert(padded_len == padded_size(data@.len() as int, d as int));

    let mut buf = subvec(data, 0, data.len());
    push_zeros(&mut buf, padded_len - 8 - data.len());
    push_le_u64(&mut buf, data.len() as u64);
    proof {
        crate::bytes::lemma_pow256_values();
        assert(buf@ =~= padded_bytes(data@, d as int));
    }

    let mut originals: Vec<Vec<u8>> = Vec::new();
    let mut i: usize = 0;
    while i < dsc
        invariant
            0 <= i <= dsc,
            d >= 1,
            dsc * d == padded_len,
            buf@.len() == padded_len,
            buf@ == padded_bytes(data@, d as int),
            originals@.len() == i,
            forall|k: int|
                0 <= k < i ==> (#[trigger] originals@[k])@ == padded_bytes(data@, d as int).subrange(
                    k * (d as int),
                    (k + 1) * (d as int),
                ),
        decreases dsc - i,
    {
        proof {
            assert((i + 1) * (d as int) <= dsc * (d as int) && 0 <= (i as int) * (d as int) && (
            i as int) * (d as int) + (d as int) == (i + 1) * (d as int)) by (nonlinear_arith)
                requires
                    0 <= i < dsc,
                    d >= 1,
            ;
        }
        let s = subvec(&buf, i * d, i * d + d);
        originals.push(s);
        i = i + 1;
    }
    proof {
        assert forall|k: int| 0 <= k < originals@.len() implies (#[trigger] originals@[k])@.len()
            == d by {
            assert((k + 1) * (d as int) <= dsc * (d as int) && 0 <= k * (d as int) && k * (d as int)
                + (d as int) == (k + 1) * (d as int)) by (nonlinear_arith)
                requires
                    0 <= k < dsc,
                    d >= 1,
            ;
        }
        assert(d <= padded_len) by (nonlinear_arith)
            requires
                dsc >= 1,
                d >= 1,
                padded_len == dsc * d,
        ;
    }
    let recovery = match rs_encode(&originals, rsc, d) {
        Ok(r) => r,
        Err(_) => {
            return Err(CodecError::EncodingConfig);
        },
    };
    proof {
        assert(originals@.map_values(|x: Vec<u8>| x@) =~= shard_slices(data@, d as int));
    }

    let mut chunks: Vec<Vec<u8>> = Vec::new();
    let hash_copy = subvec(&digest, 0, digest.len());
    let meta = Header::Meta(
        MetaHeader {
            identifier: subvec(&digest, 0, 4),
            hash: hash_copy,
            original_count: dsc as u16,
            recovery_count: rsc as u16,
            shard_bytes: d as u64,
        },
    );
    let mut mbuf: Vec<u8> = Vec::new();
    proof {
        assert(meta@ matches HeaderView::Meta(m) && m =~= meta_of(
            data@,
            tag@,
            dsc as u16,
            rsc as u16,
            d as u64,
        ));
    }
    meta.write_to(&mut mbuf);
    chunks.push(mbuf);
    let mut j: usize = 0;
    while j < rsc
        invariant
            0 <= j <= rsc,
            dsc <= 65535,
            rsc <= 65535,
            d >= 1,
            d + 82 <= usize::MAX,
            digest@ == doc_hash(data@, tag@),
            digest@.len() == 64,
            chunks@.len() == j + 1,
            chunks@[0]@ == meta_chunk_bytes(data@, tag@, dsc as u16, rsc as u16, d as u64),
            recovery@.len() == rsc,
            forall|k: int| 0 <= k < rsc ==> (#[trigger] recovery@[k])@.len() == d,
            recovery@.map_values(|x: Vec<u8>| x@) == rs_recovery(
                shard_slices(data@, d as int),
                rsc as int,
            ),
            forall|k: int|
                0 <= k < j ==> (#[trigger] chunks@[k + 1])@ == payload_chunk_bytes(
                    data@,
                    tag@,
                    rsc as int,
                    d as int,
                    k,
                ),
        decreases rsc - j,
    {
        let mut cbuf: Vec<u8> = Vec::new();
        let ph = Header::Payload(
            PayloadHeader { index: j as u16, identifier: subvec(&digest, 0, 4) },
        );
        proof {
            assert(ph@ matches HeaderView::Payload(p) && p =~= (PayloadView {
                index: j as u16,
                identifier: doc_id(data@, tag@),
            }));
        }
        ph.write_to(&mut cbuf);
        append_bytes(&mut cbuf, &recovery[j]);
        proof {
            assert(recovery@[j as int]@ == rs_recovery(shard_slices(data@, d as int), rsc as int)[j as int]);
        }
        chunks.push(cbuf);
        j = j + 1;
    }
    proof {
        let cs = chunks@.map_values(|c: Vec<u8>| c@);
        assert(cs.len() == rsc + 1);
        assert(cs[0] == meta_chunk_bytes(data@, tag@, dsc as u16, rsc as u16, d as u64));
        assert forall|k: int| 0 <= k < rsc as int implies cs[k + 1] == payload_chunk_bytes(
            data@,
            tag@,
            rsc as int,
            d as int,
            k,
        ) by {
            assert(chunks@[k + 1]@ == payload_chunk_bytes(data@, tag@, rsc as int, d as int, k));
        }
        assert forall|k: int| 0 <= k < rsc as int implies (#[trigger] rs_recovery(
            shard_slices(data@, d as int),
            rsc as int,
        )[k]).len() == d as int by {
            assert(rs_recovery(shard_slices(data@, d as int), rsc as int)[k] == recovery@.map_values(
                |x: Vec<u8>| x@,
            )[k]);
        }
    }
    Ok((plan, chunks))
}

} // verus!
