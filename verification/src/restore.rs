use crate::arith::{div_up, lemma_div_up, mul_checked};
use crate::bytes::{
    append_bytes, bytes_eq, le_bytes, le_val, lemma_le_round_trip, lemma_le_val_bound,
    lemma_pow256_values, read_le_u64, subvec,
};
use crate::encode::{
    doc_hash, doc_id, meta_chunk_bytes, meta_of, padded_bytes, payload_chunk_bytes, shard_slices,
};
use crate::erasure::{
    pair_views, rs_decode, rs_params_check, rs_params_ok, rs_recovery, shards_match,
};
use crate::errors::CodecError;
use crate::hashing::{sha512_digest, sha512_of};
use crate::header::{
    lemma_header_round_trip, parse_header, payload_view_bytes, Header, HeaderView, MetaHeader,
    MetaView, PayloadView,
};
use vstd::prelude::*;

verus! {

/// The views of a list of chunk buffers.
pub open spec fn chunk_views(cs: Seq<Vec<u8>>) -> Seq<Seq<u8>> {
    cs.map_values(|c: Vec<u8>| c@)
}

/// The state of the chunk-gathering pass: the metadata header seen so far,
/// the document identifier in force, and the distinct payload entries in
/// first-seen order.
#[verifier::ext_equal]
pub ghost struct GatherState {
    pub meta: Option<MetaView>,
    pub ident: Option<Seq<u8>>,
    pub payloads: Seq<(u16, Seq<u8>)>,
}

/// The gathering pass starts with nothing seen.
pub open spec fn init_gather() -> GatherState {
    GatherState { meta: None, ident: None, payloads: Seq::empty() }
}

/// The position of the first payload entry with the given shard index.
pub open spec fn find_payload(ps: Seq<(u16, Seq<u8>)>, idx: u16) -> Option<int>
    decreases ps.len(),
{
    if ps.len() == 0 {
        None
    } else if ps[0].0 == idx {
        Some(0)
    } else {
        match find_payload(ps.skip(1), idx) {
            Some(k) => Some(k + 1),
            None => None,
        }
    }
}

/// What [`find_payload`] finds: the first entry with the index, or a witness
/// that no entry has it.
pub proof fn lemma_find_payload(ps: Seq<(u16, Seq<u8>)>, idx: u16)
    ensures
        match find_payload(ps, idx) {
            Some(k) => 0 <= k < ps.len() && ps[k].0 == idx && forall|j: int|
                0 <= j < k ==> (#[trigger] ps[j]).0 != idx,
            None => forall|j: int| 0 <= j < ps.len() ==> (#[trigger] ps[j]).0 != idx,
        },
    decreases ps.len(),
{
    if ps.len() == 0 {
    } else if ps[0].0 == idx {
    } else {
        lemma_find_payload(ps.skip(1), idx);
        let t = ps.skip(1);
        match find_payload(t, idx) {
            Some(k1) => {
                assert(t[k1] == ps[k1 + 1]);
                assert forall|j: int| 0 <= j < k1 + 1 implies (#[trigger] ps[j]).0 != idx by {
                    if j >= 1 {
                        assert(t[j - 1] == ps[j]);
                    }
                }
            },
            None => {
                assert forall|j: int| 0 <= j < ps.len() implies (#[trigger] ps[j]).0 != idx by {
                    if j >= 1 {
                        assert(t[j - 1] == ps[j]);
                    }
                }
            },
        }
    }
}

/// One step of the gathering pass over a single decoded chunk: parse the
/// header, hold every chunk to the document identifier in force, require all
/// metadata headers to agree, keep one copy of each shard index and reject a
/// duplicate index carrying different bytes.
pub open spec fn gather_step(st: GatherState, chunk: Seq<u8>) -> Result<GatherState, CodecError> {
    match parse_header(chunk) {
        None => Err(CodecError::Format),
        Some((HeaderView::Meta(m), n)) => {
            if st.ident matches Some(id) && id != m.identifier {
                Err(CodecError::InconsistentMetadata)
            } else if st.meta matches Some(pm) && pm != m {
                Err(CodecError::InconsistentMetadata)
            } else {
                Ok(
                    GatherState {
                        meta: Some(m),
                        ident: Some(m.identifier),
                        payloads: st.payloads,
                    },
                )
            }
        },
        Some((HeaderView::Payload(p), n)) => {
            if st.ident matches Some(id) && id != p.identifier {
                Err(CodecError::InconsistentMetadata)
            } else {
                let body = chunk.skip(6);
                match find_payload(st.payloads, p.index) {
                    Some(k) => if st.payloads[k].1 == body {
                        Ok(
                            GatherState {
                                meta: st.meta,
                                ident: Some(p.identifier),
                                payloads: st.payloads,
                            },
                        )
                    } else {
                        Err(CodecError::DuplicateConflict)
                    },
                    None => Ok(
                        GatherState {
                            meta: st.meta,
                            ident: Some(p.identifier),
                            payloads: st.payloads.push((p.index, body)),
                        },
                    ),
                }
            }
        },
    }
}

/// The gathering pass from position `i` on, starting in state `st`.
pub open spec fn gather_rec(cs: Seq<Seq<u8>>, i: int, st: GatherState) -> Result<
    GatherState,
    CodecError,
>
    decreases cs.len() - i,
{
    if i < 0 || i >= cs.len() {
        Ok(st)
    } else {
        match gather_step(st, cs[i]) {
            Err(e) => Err(e),
            Ok(st2) => gather_rec(cs, i + 1, st2),
        }
    }
}

/// The whole gathering pass over a list of decoded chunks.
pub open spec fn gather(cs: Seq<Seq<u8>>) -> Result<GatherState, CodecError> {
    gather_rec(cs, 0, init_gather())
}

/// Invariant of the gathering pass: payload indices are distinct and none is
/// the metadata sentinel.
pub open spec fn gather_inv(st: GatherState) -> bool {
    &&& st.payloads.map_values(|p: (u16, Seq<u8>)| p.0).no_duplicates()
    &&& forall|k: int| 0 <= k < st.payloads.len() ==> (#[trigger] st.payloads[k]).0 != 0xFFFF
}

proof fn lemma_gather_step_inv(st: GatherState, chunk: Seq<u8>)
    requires
        gather_inv(st),
        gather_step(st, chunk) is Ok,
    ensures
        gather_inv(gather_step(st, chunk)->Ok_0),
{
    let st2 = gather_step(st, chunk)->Ok_0;
    match parse_header(chunk) {
        None => {},
        Some((HeaderView::Meta(m), n)) => {},
        Some((HeaderView::Payload(p), n)) => {
            crate::bytes::lemma_le_val_bound(chunk.subrange(0, 2));
            crate::bytes::lemma_pow256_values();
            assert(p.index != 0xFFFF);
            lemma_find_payload(st.payloads, p.index);
            if find_payload(st.payloads, p.index) is None {
                let old_idx = st.payloads.map_values(|q: (u16, Seq<u8>)| q.0);
                let new_idx = st2.payloads.map_values(|q: (u16, Seq<u8>)| q.0);
                assert(new_idx =~= old_idx.push(p.index));
                assert(forall|j: int|
                    0 <= j < old_idx.len() ==> old_idx[j] == (#[trigger] st.payloads[j]).0);
                assert(forall|j: int| 0 <= j < old_idx.len() ==> (#[trigger] old_idx[j]) != p.index);
                assert(new_idx.no_duplicates()) by {
                    assert forall|a: int, b: int|
                        0 <= a < new_idx.len() && 0 <= b < new_idx.len() && a != b implies new_idx[a]
                        != new_idx[b] by {
                        if a < old_idx.len() && b < old_idx.len() {
                            assert(old_idx[a] == new_idx[a] && old_idx[b] == new_idx[b]);
                        } else if a < old_idx.len() {
                            assert(new_idx[b] == p.index && new_idx[a] == old_idx[a]);
                        } else {
                            assert(new_idx[a] == p.index && new_idx[b] == old_idx[b]);
                        }
                    }
                }
            }
        },
    }
}

proof fn lemma_gather_rec_inv(cs: Seq<Seq<u8>>, i: int, st: GatherState)
    requires
        gather_inv(st),
        gather_rec(cs, i, st) is Ok,
    ensures
        gather_inv(gather_rec(cs, i, st)->Ok_0),
    decreases cs.len() - i,
{
    if i < 0 || i >= cs.len() {
    } else {
        match gather_step(st, cs[i]) {
            Err(e) => {},
            Ok(st2) => {
                lemma_gather_step_inv(st, cs[i]);
                lemma_gather_rec_inv(cs, i + 1, st2);
            },
        }
    }
}

/// A successful gathering pass yields distinct, non-sentinel payload indices.
pub proof fn lemma_gather_inv(cs: Seq<Seq<u8>>)
    requires
        gather(cs) is Ok,
    ensures
        gather_inv(gather(cs)->Ok_0),
{
    lemma_gather_rec_inv(cs, 0, init_gather());
}

/// Whether two metadata headers hold the same fields.
pub fn meta_eq(a: &MetaHeader, b: &MetaHeader) -> (r: bool)
    ensures
        r <==> a@ == b@,
{
    let r = bytes_eq(&a.identifier, &b.identifier) && bytes_eq(&a.hash, &b.hash)
        && a.original_count == b.original_count && a.recovery_count == b.recovery_count
        && a.shard_bytes == b.shard_bytes;
    proof {
        if r {
            assert(a@ =~= b@);
        }
    }
    r
}

/// The position of the first payload entry with the given shard index,
/// [`find_payload`] in executable form.
fn find_payload_exec(ps: &Vec<(u16, Vec<u8>)>, idx: u16) -> (r: Option<usize>)
    ensures
        match r {
            Some(k) => find_payload(crate::erasure::pair_views(ps@), idx) == Some(k as int),
            None => find_payload(crate::erasure::pair_views(ps@), idx) is None,
        },
{
    let ghost pv = crate::erasure::pair_views(ps@);
    proof {
        assert(pv.skip(0) =~= pv);
    }
    let mut k: usize = 0;
    while k < ps.len()
        invariant
            0 <= k <= ps@.len(),
            pv == crate::erasure::pair_views(ps@),
            pv.len() == ps@.len(),
            forall|j: int| 0 <= j < ps@.len() ==> (#[trigger] pv[j]).0 == ps@[j].0,
            forall|j: int| 0 <= j < k ==> (#[trigger] pv[j]).0 != idx,
            find_payload(pv, idx) == match find_payload(pv.skip(k as int), idx) {
                Some(m) => Some(m + k),
                None => None::<int>,
            },
        decreases ps@.len() - k,
    {
        proof {
            assert(pv.skip(k as int).len() == pv.len() - k);
            assert(pv.skip(k as int)[0] == pv[k as int]);
            assert(pv.skip(k as int).skip(1) =~= pv.skip(k as int + 1));
        }
        if ps[k].0 == idx {
            proof {
                assert(find_payload(pv.skip(k as int), idx) == Some(0int));
            }
            return Some(k);
        }
        k = k + 1;
    }
    proof {
        assert(pv.skip(k as int).len() == 0);
    }
    None
}

/// Gathers the decoded chunks: parses every header, validates cross-chunk
/// consistency, and deduplicates payload entries, exactly as the gathering
/// pass [`gather`] prescribes.
pub fn collect_chunks(chunks: &Vec<Vec<u8>>) -> (r: Result<
    (Option<MetaHeader>, Vec<(u16, Vec<u8>)>),
    CodecError,
>)
    ensures
        match r {
            Ok(p) => gather(chunk_views(chunks@)) matches Ok(st) && (match p.0 {
                Some(mh) => st.meta == Some(mh@),
                None => st.meta is None,
            }) && crate::erasure::pair_views(p.1@) == st.payloads,
            Err(e) => gather(chunk_views(chunks@)) == Err::<GatherState, CodecError>(e),
        },
{
    let ghost cv = chunk_views(chunks@);
    let mut meta: Option<MetaHeader> = None;
    let mut ident: Option<Vec<u8>> = None;
    let mut payloads: Vec<(u16, Vec<u8>)> = Vec::new();
    let ghost mut st = init_gather();

    let mut i: usize = 0;
    while i < chunks.len()
        invariant
            0 <= i <= chunks@.len(),
            cv == chunk_views(chunks@),
            cv.len() == chunks@.len(),
            forall|j: int| 0 <= j < chunks@.len() ==> cv[j] == (#[trigger] chunks@[j])@,
            gather_rec(cv, i as int, st) == gather(cv),
            st.meta == (match meta {
                Some(mh) => Some(mh@),
                None => None::<MetaView>,
            }),
            st.ident == (match ident {
                Some(idv) => Some(idv@),
                None => None::<Seq<u8>>,
            }),
            st.payloads == crate::erasure::pair_views(payloads@),
        decreases chunks@.len() - i,
    {
        let chunk = &chunks[i];
        let parsed = Header::read_from(chunk);
        match parsed {
            Err(e) => {
                return Err(e);
            },
            Ok((Header::Meta(mh), n)) => {
                match &ident {
                    Some(idv) => {
                        if !bytes_eq(idv, &mh.identifier) {
                            return Err(CodecError::InconsistentMetadata);
                        }
                    },
                    None => {},
                }
                match &meta {
                    Some(pm) => {
                        if !meta_eq(pm, &mh) {
                            return Err(CodecError::InconsistentMetadata);
                        }
                    },
                    None => {},
                }
                let id_copy = subvec(&mh.identifier, 0, mh.identifier.len());
                proof {
                    assert(id_copy@ =~= mh.identifier@);
                    st = gather_step(st, cv[i as int])->Ok_0;
                }
                ident = Some(id_copy);
                meta = Some(mh);
            },
            Ok((Header::Payload(ph), n)) => {
                match &ident {
                    Some(idv) => {
                        if !bytes_eq(idv, &ph.identifier) {
                            return Err(CodecError::InconsistentMetadata);
                        }
                    },
                    None => {},
                }
                let body = subvec(chunk, 6, chunk.len());
                proof {
                    assert(body@ =~= cv[i as int].skip(6));
                }
                match find_payload_exec(&payloads, ph.index) {
                    Some(k) => {
                        proof {
                            lemma_find_payload(st.payloads, ph.index);
                        }
                        if !bytes_eq(&payloads[k].1, &body) {
                            return Err(CodecError::DuplicateConflict);
                        }
                        proof {
                            st = gather_step(st, cv[i as int])->Ok_0;
                        }
                        ident = Some(ph.identifier);
                    },
                    None => {
                        let id_copy = subvec(&ph.identifier, 0, ph.identifier.len());
                        proof {
                            assert(id_copy@ =~= ph.identifier@);
                            st = gather_step(st, cv[i as int])->Ok_0;
                        }
                        ident = Some(id_copy);
                        payloads.push((ph.index, body));
                        proof {
                            assert(st.payloads =~= crate::erasure::pair_views(payloads@));
                        }
                    },
                }
            },
        }
        i = i + 1;
    }
    Ok((meta, payloads))
}

/// Concatenation of a sequence of byte strings, in order.
pub open spec fn concat_seqs(ss: Seq<Seq<u8>>) -> Seq<u8>
    decreases ss.len(),
{
    if ss.len() == 0 {
        Seq::empty()
    } else {
        concat_seqs(ss.drop_last()) + ss.last()
    }
}

proof fn lemma_concat_chunks(big: Seq<u8>, sb: int, n: int)
    requires
        sb >= 1,
        n >= 0,
        big.len() == n * sb,
    ensures
        concat_seqs(Seq::new(n as nat, |i: int| big.subrange(i * sb, (i + 1) * sb))) == big,
    decreases n,
{
    let ss = Seq::new(n as nat, |i: int| big.subrange(i * sb, (i + 1) * sb));
    if n == 0 {
        assert(big.len() == 0) by (nonlinear_arith)
            requires
                big.len() == n * sb,
                n == 0,
        ;
        assert(concat_seqs(ss) =~= big);
    } else {
        assert((n - 1) * sb + sb == n * sb && 0 <= (n - 1) * sb) by (nonlinear_arith)
            requires
                n >= 1,
                sb >= 1,
        ;
        let big2 = big.take((n - 1) * sb);
        assert(big2.len() == (n - 1) * sb);
        let ss2 = Seq::new((n - 1) as nat, |i: int| big2.subrange(i * sb, (i + 1) * sb));
        assert(ss.drop_last() =~= ss2) by {
            assert forall|i: int| 0 <= i < n - 1 implies ss.drop_last()[i] == ss2[i] by {
                assert(0 <= i * sb && (i + 1) * sb <= (n - 1) * sb && (n - 1) * sb <= n * sb
                    && i * sb + sb == (i + 1) * sb) by (nonlinear_arith)
                    requires
                        0 <= i,
                        i + 1 <= n - 1,
                        sb >= 1,
                ;
                assert(big2.subrange(i * sb, (i + 1) * sb) =~= big.subrange(i * sb, (i + 1) * sb));
            }
        }
        lemma_concat_chunks(big2, sb, n - 1);
        assert(ss.last() == big.subrange((n - 1) * sb, n * sb));
        assert(big2 + big.subrange((n - 1) * sb, n * sb) =~= big);
    }
}

/// Structure of the padded buffer and its shard slices.
proof fn lemma_slices_facts(data: Seq<u8>, sb: int)
    requires
        sb >= 1,
        data.len() < 0x1_0000_0000_0000_0000,
    ensures
        padded_bytes(data, sb).len() == div_up(data.len() as int + 8, sb) * sb,
        padded_bytes(data, sb).len() >= data.len() + 8,
        shard_slices(data, sb).len() == div_up(data.len() as int + 8, sb),
        forall|k: int|
            0 <= k < shard_slices(data, sb).len() ==> (#[trigger] shard_slices(data, sb)[k]).len()
                == sb,
        concat_seqs(shard_slices(data, sb)) == padded_bytes(data, sb),
        le_val(
            padded_bytes(data, sb).subrange(
                padded_bytes(data, sb).len() - 8,
                padded_bytes(data, sb).len() as int,
            ),
        ) == data.len(),
        padded_bytes(data, sb).take(data.len() as int) == data,
{
    lemma_div_up(data.len() as int + 8, sb);
    let n = div_up(data.len() as int + 8, sb);
    let total = n * sb;
    let padded = padded_bytes(data, sb);
    assert(padded.len() == total);
    let mk = Seq::new(n as nat, |i: int| padded.subrange(i * sb, (i + 1) * sb));
    assert(shard_slices(data, sb) =~= mk);
    lemma_concat_chunks(padded, sb, n);
    assert forall|k: int| 0 <= k < n implies (#[trigger] shard_slices(data, sb)[k]).len() == sb by {
        assert(0 <= k * sb && (k + 1) * sb <= n * sb && k * sb + sb == (k + 1) * sb)
            by (nonlinear_arith)
            requires
                0 <= k < n,
                sb >= 1,
        ;
    }
    assert(padded.subrange(total - 8, total) =~= le_bytes(data.len() as int, 8));
    lemma_pow256_values();
    lemma_le_round_trip(data.len() as int, 8);
    assert(padded.take(data.len() as int) =~= data);
}

proof fn lemma_parse_payload_chunk(p: PayloadView, rest: Seq<u8>)
    requires
        p.wf(),
    ensures
        parse_header(payload_view_bytes(p) + rest) == Some((HeaderView::Payload(p), 6int)),
        (payload_view_bytes(p) + rest).skip(6) == rest,
{
    lemma_pow256_values();
    let s = payload_view_bytes(p) + rest;
    assert(s.subrange(0, 2) =~= le_bytes(p.index as int, 2));
    lemma_le_round_trip(p.index as int, 2);
    assert(s.subrange(2, 6) =~= p.identifier);
    assert(s.skip(6) =~= rest);
    let parsed = parse_header(s)->Some_0.0;
    assert(parsed matches HeaderView::Payload(pp) && pp =~= p);
}

/// Whether one decoded buffer belongs to the document encoded from `data`
/// under `tag` with the given shard parameters: it is the metadata chunk, or
/// one of the payload chunks.
pub open spec fn is_doc_chunk(
    c: Seq<u8>,
    data: Seq<u8>,
    tag: Seq<u8>,
    oc: u16,
    rc: u16,
    sb: u64,
) -> bool {
    ||| c == meta_chunk_bytes(data, tag, oc, rc, sb)
    ||| exists|j: int|
        0 <= j < rc as int && c == payload_chunk_bytes(data, tag, rc as int, sb as int, j)
}

/// The chunk-wise conditions of a usable scan: consistent shard parameters
/// and every buffer a chunk of the one document.
pub open spec fn doc_chunks_ok(
    cs: Seq<Seq<u8>>,
    data: Seq<u8>,
    tag: Seq<u8>,
    oc: u16,
    rc: u16,
    sb: u64,
) -> bool {
    &&& doc_hash(data, tag).len() == 64
    &&& data.len() < 0x1_0000_0000_0000_0000
    &&& oc as int == div_up(data.len() as int + 8, sb as int)
    &&& rs_params_ok(oc as int, rc as int, sb as int)
    &&& oc as int * sb as int <= usize::MAX
    &&& (forall|j: int|
        0 <= j < rc as int ==> (#[trigger] rs_recovery(shard_slices(data, sb as int), rc as int)[j]).len()
            == sb as int)
    &&& (forall|ci: int| 0 <= ci < cs.len() ==> is_doc_chunk(#[trigger] cs[ci], data, tag, oc, rc, sb))
}

/// The distinct recovery-shard indices available in a chunk list.
pub open spec fn avail_indices(
    cs: Seq<Seq<u8>>,
    data: Seq<u8>,
    tag: Seq<u8>,
    rc: u16,
    sb: u64,
) -> Set<int> {
    Set::new(
        |j: int|
            0 <= j < rc as int && cs.contains(
                payload_chunk_bytes(data, tag, rc as int, sb as int, j),
            ),
    )
}

/// A chunk list from which the document encoded from `data` under `tag` is
/// recoverable: every buffer belongs to that document, the metadata chunk is
/// present, and at least `oc` distinct recovery shards are available.
pub open spec fn scan_set_of(
    cs: Seq<Seq<u8>>,
    data: Seq<u8>,
    tag: Seq<u8>,
    oc: u16,
    rc: u16,
    sb: u64,
) -> bool {
    &&& doc_chunks_ok(cs, data, tag, oc, rc, sb)
    &&& cs.contains(meta_chunk_bytes(data, tag, oc, rc, sb))
    &&& avail_indices(cs, data, tag, rc, sb).len() >= oc as int
}

/// Consistency of a gathering state with the one document.
pub open spec fn st_consistent(
    st: GatherState,
    data: Seq<u8>,
    tag: Seq<u8>,
    oc: u16,
    rc: u16,
    sb: u64,
) -> bool {
    &&& (st.ident matches Some(id) ==> id == doc_id(data, tag))
    &&& (st.meta matches Some(m) ==> m == meta_of(data, tag, oc, rc, sb))
    &&& (forall|k: int|
        0 <= k < st.payloads.len() ==> (#[trigger] st.payloads[k]).0 < rc && st.payloads[k].1
            == rs_recovery(shard_slices(data, sb as int), rc as int)[st.payloads[k].0 as int])
}

/// Whether some payload entry carries the given shard index.
pub open spec fn idx_present(ps: Seq<(u16, Seq<u8>)>, j: u16) -> bool {
    exists|k: int| 0 <= k < ps.len() && (#[trigger] ps[k]).0 == j
}

proof fn lemma_gather_scan(
    cs: Seq<Seq<u8>>,
    data: Seq<u8>,
    tag: Seq<u8>,
    oc: u16,
    rc: u16,
    sb: u64,
    i: int,
    st: GatherState,
)
    requires
        doc_chunks_ok(cs, data, tag, oc, rc, sb),
        0 <= i <= cs.len(),
        gather_inv(st),
        st_consistent(st, data, tag, oc, rc, sb),
    ensures
        gather_rec(cs, i, st) is Ok,
        st_consistent(gather_rec(cs, i, st)->Ok_0, data, tag, oc, rc, sb),
        (st.meta is Some || (exists|ci: int|
            i <= ci < cs.len() && cs[ci] == meta_chunk_bytes(data, tag, oc, rc, sb)))
            ==> gather_rec(cs, i, st)->Ok_0.meta is Some,
        forall|j: u16|
            idx_present(st.payloads, j) ==> #[trigger] idx_present(
                gather_rec(cs, i, st)->Ok_0.payloads,
                j,
            ),
        forall|j: int|
            #![trigger idx_present(gather_rec(cs, i, st)->Ok_0.payloads, j as u16)]
            0 <= j < rc as int && (exists|ci: int|
                i <= ci < cs.len() && cs[ci] == payload_chunk_bytes(
                    data,
                    tag,
                    rc as int,
                    sb as int,
                    j,
                )) ==> idx_present(gather_rec(cs, i, st)->Ok_0.payloads, j as u16),
    decreases cs.len() - i,
{
    if i >= cs.len() {
    } else {
        let c = cs[i];
        assert(is_doc_chunk(c, data, tag, oc, rc, sb));
        let mv = meta_of(data, tag, oc, rc, sb);
        if c == meta_chunk_bytes(data, tag, oc, rc, sb) {
            assert(HeaderView::Meta(mv).wf());
            lemma_header_round_trip(HeaderView::Meta(mv));
            assert(gather_step(st, c) is Ok);
            let st2 = gather_step(st, c)->Ok_0;
            assert(st2.payloads == st.payloads);
            lemma_gather_step_inv(st, c);
            lemma_gather_scan(cs, data, tag, oc, rc, sb, i + 1, st2);
            let fin = gather_rec(cs, i, st)->Ok_0;
            assert(fin == gather_rec(cs, i + 1, st2)->Ok_0);
            assert forall|j: u16| idx_present(st.payloads, j) implies #[trigger] idx_present(
                fin.payloads,
                j,
            ) by {
                let k = choose|k: int|
                    0 <= k < st.payloads.len() && (#[trigger] st.payloads[k]).0 == j;
                assert(st2.payloads[k].0 == j);
                assert(idx_present(st2.payloads, j));
            }
            assert forall|j: int|
                #![trigger idx_present(gather_rec(cs, i, st)->Ok_0.payloads, j as u16)]
                0 <= j < rc as int && (exists|ci: int|
                    i <= ci < cs.len() && cs[ci] == payload_chunk_bytes(
                        data,
                        tag,
                        rc as int,
                        sb as int,
                        j,
                    )) implies idx_present(gather_rec(cs, i, st)->Ok_0.payloads, j as u16) by {
                let ci = choose|ci: int|
                    i <= ci < cs.len() && cs[ci] == payload_chunk_bytes(
                        data,
                        tag,
                        rc as int,
                        sb as int,
                        j,
                    );
                if ci == i {
                    let pv = PayloadView { index: j as u16, identifier: doc_id(data, tag) };
                    lemma_parse_payload_chunk(
                        pv,
                        rs_recovery(shard_slices(data, sb as int), rc as int)[j],
                    );
                    assert(false);
                } else {
                    assert(exists|ci2: int|
                        i + 1 <= ci2 < cs.len() && cs[ci2] == payload_chunk_bytes(
                            data,
                            tag,
                            rc as int,
                            sb as int,
                            j,
                        ));
                }
            }
        } else {
            let j = choose|j: int|
                0 <= j < rc as int && c == payload_chunk_bytes(data, tag, rc as int, sb as int, j);
            let body = rs_recovery(shard_slices(data, sb as int), rc as int)[j];
            let pv = PayloadView { index: j as u16, identifier: doc_id(data, tag) };
            assert(pv.wf());
            lemma_parse_payload_chunk(pv, body);
            assert(c.skip(6) == body);
            lemma_find_payload(st.payloads, j as u16);
            match find_payload(st.payloads, j as u16) {
                Some(k) => {
                    assert(st.payloads[k].0 == j as u16);
                    assert(st.payloads[k].1 == body);
                },
                None => {},
            }
            assert(gather_step(st, c) is Ok);
            let st2 = gather_step(st, c)->Ok_0;
            assert(st_consistent(st2, data, tag, oc, rc, sb));
            assert(idx_present(st2.payloads, j as u16)) by {
                match find_payload(st.payloads, j as u16) {
                    Some(k) => {
                        assert(st2.payloads[k].0 == j as u16);
                    },
                    None => {
                        assert(st2.payloads[st2.payloads.len() - 1].0 == j as u16);
                    },
                }
            }
            lemma_gather_step_inv(st, c);
            lemma_gather_scan(cs, data, tag, oc, rc, sb, i + 1, st2);
            let fin = gather_rec(cs, i, st)->Ok_0;
            assert(fin == gather_rec(cs, i + 1, st2)->Ok_0);
            assert forall|jm: u16| idx_present(st.payloads, jm) implies #[trigger] idx_present(
                fin.payloads,
                jm,
            ) by {
                let k = choose|k: int|
                    0 <= k < st.payloads.len() && (#[trigger] st.payloads[k]).0 == jm;
                assert(st2.payloads[k].0 == jm);
                assert(idx_present(st2.payloads, jm));
            }
            assert forall|j2: int|
                #![trigger idx_present(fin.payloads, j2 as u16)]
                0 <= j2 < rc as int && (exists|ci: int|
                    i <= ci < cs.len() && cs[ci] == payload_chunk_bytes(
                        data,
                        tag,
                        rc as int,
                        sb as int,
                        j2,
                    )) implies idx_present(fin.payloads, j2 as u16) by {
                let ci = choose|ci: int|
                    i <= ci < cs.len() && cs[ci] == payload_chunk_bytes(
                        data,
                        tag,
                        rc as int,
                        sb as int,
                        j2,
                    );
                if ci == i {
                    let pv2 = PayloadView { index: j2 as u16, identifier: doc_id(data, tag) };
                    lemma_parse_payload_chunk(
                        pv2,
                        rs_recovery(shard_slices(data, sb as int), rc as int)[j2],
                    );
                    assert(pv2.index == pv.index);
                    assert(j2 == j);
                    assert(idx_present(st2.payloads, j2 as u16));
                } else {
                    assert(exists|ci2: int|
                        i + 1 <= ci2 < cs.len() && cs[ci2] == payload_chunk_bytes(
                            data,
                            tag,
                            rc as int,
                            sb as int,
                            j2,
                        ));
                }
            }
            assert((st.meta is Some || (exists|ci: int|
                i <= ci < cs.len() && cs[ci] == meta_chunk_bytes(data, tag, oc, rc, sb)))
                ==> fin.meta is Some) by {
                if st.meta is None && (exists|ci: int|
                    i <= ci < cs.len() && cs[ci] == meta_chunk_bytes(data, tag, oc, rc, sb)) {
                    let ci = choose|ci: int|
                        i <= ci < cs.len() && cs[ci] == meta_chunk_bytes(data, tag, oc, rc, sb);
                    if ci == i {
                        assert(HeaderView::Meta(mv).wf());
                        lemma_header_round_trip(HeaderView::Meta(mv));
                        assert(false);
                    } else {
                        assert(exists|ci2: int|
                            i + 1 <= ci2 < cs.len() && cs[ci2] == meta_chunk_bytes(
                                data,
                                tag,
                                oc,
                                rc,
                                sb,
                            ));
                    }
                }
            }
        }
    }
}

/// The order of checks the reconstructor applies after gathering: the reason
/// reconstruction stops, or nothing when it may proceed.
pub open spec fn restore_gate(m: MetaView, ps: Seq<(u16, Seq<u8>)>) -> Option<CodecError> {
    if m.shard_bytes > usize::MAX || !rs_params_ok(
        m.original_count as int,
        m.recovery_count as int,
        m.shard_bytes as int,
    ) {
        Some(CodecError::EncodingConfig)
    } else if exists|k: int|
        0 <= k < ps.len() && ((#[trigger] ps[k]).0 >= m.recovery_count || ps[k].1.len()
            != m.shard_bytes) {
        Some(CodecError::EncodingConfig)
    } else if m.original_count as int * m.shard_bytes as int > usize::MAX {
        Some(CodecError::EncodingConfig)
    } else if ps.len() < m.original_count {
        Some(CodecError::InsufficientData)
    } else if (m.original_count as int * m.shard_bytes as int) < 8 {
        Some(CodecError::Format)
    } else {
        None
    }
}

/// A usable scan gathers successfully into the document's own metadata and at
/// least `oc` distinct, well-sized payload entries, and passes every check of
/// the reconstructor's gate.
proof fn lemma_scan_success(
    cs: Seq<Seq<u8>>,
    data: Seq<u8>,
    tag: Seq<u8>,
    oc: u16,
    rc: u16,
    sb: u64,
)
    requires
        scan_set_of(cs, data, tag, oc, rc, sb),
    ensures
        gather(cs) is Ok,
        gather(cs)->Ok_0.meta == Some(meta_of(data, tag, oc, rc, sb)),
        gather_inv(gather(cs)->Ok_0),
        st_consistent(gather(cs)->Ok_0, data, tag, oc, rc, sb),
        gather(cs)->Ok_0.payloads.len() >= oc as int,
        oc >= 1,
        restore_gate(meta_of(data, tag, oc, rc, sb), gather(cs)->Ok_0.payloads) is None,
        shards_match(
            shard_slices(data, sb as int),
            rc as int,
            sb as int,
            gather(cs)->Ok_0.payloads,
        ),
        shard_slices(data, sb as int).len() == oc as int,
{
    lemma_gather_scan(cs, data, tag, oc, rc, sb, 0, init_gather());
    let st = gather(cs)->Ok_0;
    lemma_gather_inv(cs);
    assert(st.meta is Some) by {
        let ci = choose|ci: int| 0 <= ci < cs.len() && cs[ci] == meta_chunk_bytes(data, tag, oc, rc, sb);
        assert(exists|ci2: int|
            0 <= ci2 < cs.len() && cs[ci2] == meta_chunk_bytes(data, tag, oc, rc, sb));
    }
    lemma_slices_facts(data, sb as int);
    lemma_div_up(data.len() as int + 8, sb as int);
    assert(oc >= 1) by {
        assert(div_up(data.len() as int + 8, sb as int) * (sb as int) >= 8);
        assert(0 * (sb as int) < 8) by (nonlinear_arith);
    }

    // Cardinality: the gathered distinct indices cover every available index.
    let ps = st.payloads;
    let avail = avail_indices(cs, data, tag, rc, sb);
    let ps_idx = ps.map_values(|p: (u16, Seq<u8>)| p.0);
    let cast = |x: u16| x as int;
    let iseq = ps_idx.map_values(cast);
    assert(vstd::relations::injective(cast)) by {
        assert(forall|x: u16, y: u16| #[trigger] cast(x) == #[trigger] cast(y) ==> x == y);
    }
    ps_idx.lemma_no_duplicates_injective(cast);
    assert(iseq.no_duplicates());
    iseq.unique_seq_to_set();
    broadcast use vstd::seq_lib::seq_to_set_is_finite;

    assert(avail.subset_of(iseq.to_set())) by {
        assert forall|j: int| avail.contains(j) implies iseq.to_set().contains(j) by {
            assert(cs.contains(payload_chunk_bytes(data, tag, rc as int, sb as int, j)));
            let ci = choose|ci: int|
                0 <= ci < cs.len() && cs[ci] == payload_chunk_bytes(
                    data,
                    tag,
                    rc as int,
                    sb as int,
                    j,
                );
            assert(exists|ci2: int|
                0 <= ci2 < cs.len() && cs[ci2] == payload_chunk_bytes(
                    data,
                    tag,
                    rc as int,
                    sb as int,
                    j,
                ));
            assert(idx_present(ps, j as u16));
            let k = choose|k: int| 0 <= k < ps.len() && (#[trigger] ps[k]).0 == j as u16;
            assert(iseq[k] == j);
            assert(iseq.contains(j));
        }
    }
    vstd::set_lib::lemma_len_subset(avail, iseq.to_set());
    assert(ps.len() >= oc as int);

    // Every gate condition is ruled out.
    let m = meta_of(data, tag, oc, rc, sb);
    assert(m.shard_bytes as int * 1 <= m.original_count as int * m.shard_bytes as int)
        by (nonlinear_arith)
        requires
            m.original_count >= 1,
            m.shard_bytes >= 0,
            m.original_count == oc,
            m.shard_bytes == sb,
    ;
    assert forall|k: int| 0 <= k < ps.len() implies !((#[trigger] ps[k]).0 >= m.recovery_count
        || ps[k].1.len() != m.shard_bytes) by {
        assert(ps[k].0 < rc);
        assert(ps[k].1 == rs_recovery(shard_slices(data, sb as int), rc as int)[ps[k].0 as int]);
    }
    assert(m.original_count as int * m.shard_bytes as int >= 8) by {
        assert(div_up(data.len() as int + 8, sb as int) * (sb as int) >= 8);
    }
}

/// Resilience: any selection out of an encode's chunk list that keeps the
/// metadata chunk and at least `oc` distinct payload chunks — in any order,
/// with any duplication — is a scan set, so the reconstructor's contract
/// guarantees that it returns exactly the encoded bytes.
pub proof fn lemma_scan_set_from_selection(
    data: Seq<u8>,
    tag: Seq<u8>,
    oc: u16,
    rc: u16,
    sb: u64,
    cs: Seq<Seq<u8>>,
    sel: Seq<Seq<u8>>,
)
    requires
        crate::encode::encode_outcome(data, tag, oc, rc, sb, cs),
        forall|i: int| 0 <= i < sel.len() ==> cs.contains(#[trigger] sel[i]),
        sel.contains(cs[0]),
        avail_indices(sel, data, tag, rc, sb).len() >= oc as int,
    ensures
        scan_set_of(sel, data, tag, oc, rc, sb),
{
    assert forall|ci: int| 0 <= ci < sel.len() implies is_doc_chunk(
        #[trigger] sel[ci],
        data,
        tag,
        oc,
        rc,
        sb,
    ) by {
        let cj = choose|cj: int| 0 <= cj < cs.len() && cs[cj] == sel[ci];
        if cj == 0 {
        } else {
            assert(cs[cj] == payload_chunk_bytes(data, tag, rc as int, sb as int, cj - 1));
        }
    }
    assert(sel.contains(meta_chunk_bytes(data, tag, oc, rc, sb)));
}

/// Round trip: the full chunk list an encode produces is itself a scan set —
/// every recovery shard index is available — so reconstructing it returns
/// exactly the encoded bytes.
pub proof fn lemma_round_trip(data: Seq<u8>, tag: Seq<u8>, oc: u16, rc: u16, sb: u64, cs: Seq<Seq<u8>>)
    requires
        crate::encode::encode_outcome(data, tag, oc, rc, sb, cs),
    ensures
        scan_set_of(cs, data, tag, oc, rc, sb),
{
    assert(avail_indices(cs, data, tag, rc, sb) =~= vstd::set_lib::set_int_range(0, rc as int)) by {
        assert forall|j: int| 0 <= j < rc as int implies cs.contains(
            payload_chunk_bytes(data, tag, rc as int, sb as int, j),
        ) by {
            assert(cs[j + 1] == payload_chunk_bytes(data, tag, rc as int, sb as int, j));
        }
    }
    vstd::set_lib::lemma_int_range(0, rc as int);
    assert(cs.contains(cs[0]));
    assert(forall|i: int| 0 <= i < cs.len() ==> cs.contains(#[trigger] cs[i]));
    lemma_scan_set_from_selection(data, tag, oc, rc, sb, cs, cs);
}

/// Reconstructs the original file bytes from an unordered collection of
/// decoded chunk buffers: gathers and validates the chunks, feeds the
/// distinct payload entries to the erasure decoder, reassembles the shards in
/// index order, trims the padding using the embedded size field, and verifies
/// the whole-document hash under `tag`.
pub fn reconstruct(chunks: &Vec<Vec<u8>>, tag: &Vec<u8>) -> (r: Result<Vec<u8>, CodecError>)
    ensures
        gather(chunk_views(chunks@)) matches Err(e) ==> r == Err::<Vec<u8>, CodecError>(e),
        gather(chunk_views(chunks@)) matches Ok(st) ==> {
            &&& (st.meta is None ==> r == Err::<Vec<u8>, CodecError>(CodecError::MissingMetadata))
            &&& ((st.meta is Some && restore_gate(st.meta->Some_0, st.payloads) is Some) ==> r
                == Err::<Vec<u8>, CodecError>(restore_gate(st.meta->Some_0, st.payloads)->Some_0))
            &&& ((st.meta is Some && restore_gate(st.meta->Some_0, st.payloads) is None) ==> (r
                is Ok || r == Err::<Vec<u8>, CodecError>(CodecError::ChecksumMismatch)))
        },
        r matches Ok(out) ==> (gather(chunk_views(chunks@)) matches Ok(st) && st.meta is Some
            && restore_gate(st.meta->Some_0, st.payloads) is None && sha512_of(out@ + tag@)
            == st.meta->Some_0.hash && out@.len() <= st.meta->Some_0.original_count as int
            * st.meta->Some_0.shard_bytes as int),
        forall|data: Seq<u8>, oc: u16, rc: u16, sb: u64|
            #[trigger] scan_set_of(chunk_views(chunks@), data, tag@, oc, rc, sb) ==> (r matches Ok(
                out,
            ) && out@ == data),
{
    let ghost cv = chunk_views(chunks@);
    let collected = collect_chunks(chunks);
    let (meta_opt, payloads) = match collected {
        Ok(p) => p,
        Err(e) => {
            proof {
                assert forall|data: Seq<u8>, oc: u16, rc: u16, sb: u64| !scan_set_of(
                    cv,
                    data,
                    tag@,
                    oc,
                    rc,
                    sb,
                ) by {
                    if scan_set_of(cv, data, tag@, oc, rc, sb) {
                        lemma_scan_success(cv, data, tag@, oc, rc, sb);
                    }
                }
            }
            return Err(e);
        },
    };
    let ghost st = gather(cv)->Ok_0;
    proof {
        lemma_gather_inv(cv);
    }
    let meta = match meta_opt {
        Some(m) => m,
        None => {
            proof {
                assert forall|data: Seq<u8>, oc: u16, rc: u16, sb: u64| !scan_set_of(
                    cv,
                    data,
                    tag@,
                    oc,
                    rc,
                    sb,
                ) by {
                    if scan_set_of(cv, data, tag@, oc, rc, sb) {
                        lemma_scan_success(cv, data, tag@, oc, rc, sb);
                    }
                }
            }
            return Err(CodecError::MissingMetadata);
        },
    };
    let ghost m = meta@;
    if meta.shard_bytes > (usize::MAX as u64) || !rs_params_check(
        meta.original_count as usize,
        meta.recovery_count as usize,
        meta.shard_bytes,
    ) {
        proof {
            assert forall|data: Seq<u8>, oc: u16, rc: u16, sb: u64| !scan_set_of(
                cv,
                data,
                tag@,
                oc,
                rc,
                sb,
            ) by {
                if scan_set_of(cv, data, tag@, oc, rc, sb) {
                    lemma_scan_success(cv, data, tag@, oc, rc, sb);
                    assert(m == meta_of(data, tag@, oc, rc, sb));
                }
            }
        }
        return Err(CodecError::EncodingConfig);
    }
    let oc: usize = meta.original_count as usize;
    let rc: usize = meta.recovery_count as usize;
    let sb: usize = meta.shard_bytes as usize;

    let mut k: usize = 0;
    while k < payloads.len()
        invariant
            0 <= k <= payloads@.len(),
            cv == chunk_views(chunks@),
            gather(cv) == Ok::<GatherState, CodecError>(st),
            gather_inv(st),
            st.meta == Some(m),
            m == meta@,
            m.shard_bytes <= usize::MAX,
            rs_params_ok(m.original_count as int, m.recovery_count as int, m.shard_bytes as int),
            sb == m.shard_bytes,
            pair_views(payloads@) == st.payloads,
            st.payloads.len() == payloads@.len(),
            forall|j: int|
                0 <= j < payloads@.len() ==> (#[trigger] st.payloads[j]).0 == payloads@[j].0
                    && st.payloads[j].1 == payloads@[j].1@,
            forall|j: int|
                0 <= j < k ==> !((#[trigger] st.payloads[j]).0 >= m.recovery_count
                    || st.payloads[j].1.len() != m.shard_bytes),
        decreases payloads@.len() - k,
    {
        if payloads[k].0 >= meta.recovery_count || payloads[k].1.len() != sb {
            proof {
                assert(st.payloads[k as int].0 == payloads@[k as int].0 && st.payloads[k as int].1
                    == payloads@[k as int].1@);
                assert((st.payloads[k as int]).0 >= m.recovery_count || st.payloads[k as int].1.len()
                    != m.shard_bytes);
                assert(exists|kk: int|
                    0 <= kk < st.payloads.len() && ((#[trigger] st.payloads[kk]).0
                        >= m.recovery_count || st.payloads[kk].1.len() != m.shard_bytes));
                assert(restore_gate(m, st.payloads) == Some(CodecError::EncodingConfig));
                assert forall|data: Seq<u8>, oc2: u16, rc2: u16, sb2: u64| !scan_set_of(
                    cv,
                    data,
                    tag@,
                    oc2,
                    rc2,
                    sb2,
                ) by {
                    if scan_set_of(cv, data, tag@, oc2, rc2, sb2) {
                        lemma_scan_success(cv, data, tag@, oc2, rc2, sb2);
                        assert(m == meta_of(data, tag@, oc2, rc2, sb2));
                    }
                }
            }
            return Err(CodecError::EncodingConfig);
        }
        k = k + 1;
    }

    let total = match mul_checked(oc, sb) {
        Some(t) => t,
        None => {
            proof {
                assert(restore_gate(m, st.payloads) == Some(CodecError::EncodingConfig));
                assert forall|data: Seq<u8>, oc2: u16, rc2: u16, sb2: u64| !scan_set_of(
                    cv,
                    data,
                    tag@,
                    oc2,
                    rc2,
                    sb2,
                ) by {
                    if scan_set_of(cv, data, tag@, oc2, rc2, sb2) {
                        lemma_scan_success(cv, data, tag@, oc2, rc2, sb2);
                        assert(m == meta_of(data, tag@, oc2, rc2, sb2));
                    }
                }
            }
            return Err(CodecError::EncodingConfig);
        },
    };
    if payloads.len() < oc {
        proof {
            assert(restore_gate(m, st.payloads) == Some(CodecError::InsufficientData));
            assert forall|data: Seq<u8>, oc2: u16, rc2: u16, sb2: u64| !scan_set_of(
                cv,
                data,
                tag@,
                oc2,
                rc2,
                sb2,
            ) by {
                if scan_set_of(cv, data, tag@, oc2, rc2, sb2) {
                    lemma_scan_success(cv, data, tag@, oc2, rc2, sb2);
                    assert(m == meta_of(data, tag@, oc2, rc2, sb2));
                }
            }
        }
        return Err(CodecError::InsufficientData);
    }
    proof {
        assert(payloads@.map_values(|p: (u16, Vec<u8>)| p.0) =~= st.payloads.map_values(
            |p: (u16, Seq<u8>)| p.0,
        ));
        assert forall|j: int| 0 <= j < payloads@.len() implies (#[trigger] payloads@[j]).0 < rc
            && payloads@[j].1@.len() == sb by {
            assert(st.payloads[j].0 == payloads@[j].0 && st.payloads[j].1 == payloads@[j].1@);
        }
    }
    let decoded = match rs_decode(oc, rc, sb, &payloads) {
        Ok(d) => d,
        Err(_) => {
            return Err(CodecError::EncodingConfig);
        },
    };
    let ghost dviews = decoded@.map_values(|x: Vec<u8>| x@);

    let mut buf: Vec<u8> = Vec::new();
    let mut di: usize = 0;
    while di < decoded.len()
        invariant
            0 <= di <= decoded@.len(),
            decoded@.len() == oc,
            oc * sb == total,
            total <= usize::MAX,
            dviews == decoded@.map_values(|x: Vec<u8>| x@),
            forall|j: int| 0 <= j < decoded@.len() ==> (#[trigger] decoded@[j])@.len() == sb,
            buf@.len() == di * sb,
            buf@ == concat_seqs(dviews.take(di as int)),
        decreases decoded@.len() - di,
    {
        proof {
            assert((di + 1) * sb <= oc * sb && di * sb + sb == (di + 1) * sb && 0 <= di * sb)
                by (nonlinear_arith)
                requires
                    0 <= di < oc,
                    sb >= 0,
            ;
            assert(dviews.take(di + 1).drop_last() =~= dviews.take(di as int));
            assert(dviews.take(di + 1).last() == dviews[di as int]);
            assert(dviews[di as int] == decoded@[di as int]@);
        }
        append_bytes(&mut buf, &decoded[di]);
        di = di + 1;
    }
    proof {
        assert(dviews.take(decoded@.len() as int) =~= dviews);
    }

    if buf.len() < 8 {
        proof {
            assert(restore_gate(m, st.payloads) == Some(CodecError::Format));
            assert forall|data: Seq<u8>, oc2: u16, rc2: u16, sb2: u64| !scan_set_of(
                cv,
                data,
                tag@,
                oc2,
                rc2,
                sb2,
            ) by {
                if scan_set_of(cv, data, tag@, oc2, rc2, sb2) {
                    lemma_scan_success(cv, data, tag@, oc2, rc2, sb2);
                    assert(m == meta_of(data, tag@, oc2, rc2, sb2));
                }
            }
        }
        return Err(CodecError::Format);
    }
    let expected64 = read_le_u64(&buf, buf.len() - 8);
    let expected: usize = if expected64 > (buf.len() as u64) {
        buf.len()
    } else {
        expected64 as usize
    };
    let out = subvec(&buf, 0, expected);
    let digest2 = sha512_digest(&out, tag);
    if !bytes_eq(&digest2, &meta.hash) {
        proof {
            assert forall|data: Seq<u8>, oc2: u16, rc2: u16, sb2: u64| !scan_set_of(
                cv,
                data,
                tag@,
                oc2,
                rc2,
                sb2,
            ) by {
                if scan_set_of(cv, data, tag@, oc2, rc2, sb2) {
                    lemma_scan_success(cv, data, tag@, oc2, rc2, sb2);
                    assert(m == meta_of(data, tag@, oc2, rc2, sb2));
                    lemma_slices_facts(data, sb2 as int);
                    let orig = shard_slices(data, sb2 as int);
                    assert(shards_match(orig, rc as int, sb as int, pair_views(payloads@)));
                    assert(dviews == orig);
                    assert(buf@ == padded_bytes(data, sb2 as int));
                    assert(expected64 == data.len());
                    assert(out@ =~= data);
                    assert(digest2@ == m.hash);
                }
            }
        }
        return Err(CodecError::ChecksumMismatch);
    }
    proof {
        assert forall|data: Seq<u8>, oc2: u16, rc2: u16, sb2: u64| scan_set_of(
            cv,
            data,
            tag@,
            oc2,
            rc2,
            sb2,
        ) implies out@ == data by {
            lemma_scan_success(cv, data, tag@, oc2, rc2, sb2);
            assert(m == meta_of(data, tag@, oc2, rc2, sb2));
            lemma_slices_facts(data, sb2 as int);
            let orig = shard_slices(data, sb2 as int);
            assert(shards_match(orig, rc as int, sb as int, pair_views(payloads@)));
            assert(dviews == orig);
            assert(buf@ == padded_bytes(data, sb2 as int));
            assert(expected64 == data.len());
            assert(out@ =~= data);
        }
    }
    Ok(out)
}

} // verus!
