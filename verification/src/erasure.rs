use crate::arith::{next_pow2, next_pow2_exec};
use crate::errors::CodecError;
use vstd::prelude::*;

verus! {

/// The recovery shards that the erasure coder derives from the given original
/// shards: a function of the original shards and the recovery count alone.
pub uninterp spec fn rs_recovery(original: Seq<Seq<u8>>, recovery_count: int) -> Seq<Seq<u8>>;

/// The shard-count combinations the erasure coder supports.
pub open spec fn rs_supports(oc: int, rc: int) -> bool {
    let po = next_pow2(oc);
    let pr = next_pow2(rc);
    let smaller = if po <= pr {
        po
    } else {
        pr
    };
    let larger = if oc >= rc {
        oc
    } else {
        rc
    };
    0 < oc <= 65536 && 0 < rc <= 65536 && smaller + larger <= 65536
}

/// The full parameter set the erasure coder accepts: a supported shard-count
/// combination and a non-zero, even shard byte length.
pub open spec fn rs_params_ok(oc: int, rc: int, sb: int) -> bool {
    rs_supports(oc, rc) && sb > 0 && sb % 2 == 0
}

/// Executable form of [`rs_params_ok`].
pub fn rs_params_check(oc: usize, rc: usize, sb: u64) -> (r: bool)
    ensures
        r == rs_params_ok(oc as int, rc as int, sb as int),
{
    if oc == 0 || rc == 0 || oc > 65536 || rc > 65536 {
        return false;
    }
    if sb == 0 || sb % 2 != 0 {
        return false;
    }
    let po = next_pow2_exec(oc);
    let pr = next_pow2_exec(rc);
    let smaller = if po <= pr {
        po
    } else {
        pr
    };
    let larger = if oc >= rc {
        oc
    } else {
        rc
    };
    proof {
        crate::arith::lemma_next_pow2(oc as int);
        crate::arith::lemma_next_pow2(rc as int);
    }
    smaller <= 65536 && larger <= 65536 && smaller + larger <= 65536
}

/// Relies on `reed_solomon_simd::ReedSolomonEncoder`: with a supported
/// configuration and original shards of the configured length, encoding
/// succeeds and yields the `recovery_count` recovery shards, each
/// `shard_bytes` long, in index order.
#[verifier::external_body]
pub(crate) fn rs_encode(
    original: &Vec<Vec<u8>>,
    recovery_count: usize,
    shard_bytes: usize,
) -> (r: Result<Vec<Vec<u8>>, CodecError>)
    requires
        rs_params_ok(original@.len() as int, recovery_count as int, shard_bytes as int),
        forall|i: int| 0 <= i < original@.len() ==> (#[trigger] original@[i])@.len() == shard_bytes,
    ensures
        r is Ok,
        r matches Ok(rec) ==> {
            &&& rec@.len() == recovery_count
            &&& (forall|i: int| 0 <= i < rec@.len() ==> (#[trigger] rec@[i])@.len() == shard_bytes)
            &&& rec@.map_values(|x: Vec<u8>| x@) == rs_recovery(
                original@.map_values(|x: Vec<u8>| x@),
                recovery_count as int,
            )
        },
{
    let mut enc =
        match reed_solomon_simd::ReedSolomonEncoder::new(original.len(), recovery_count, shard_bytes) {
            Ok(e) => e,
            Err(_) => return Err(CodecError::EncodingConfig),
        };
    for shard in original.iter() {
        if enc.add_original_shard(shard).is_err() {
            return Err(CodecError::EncodingConfig);
        }
    }
    let out = match enc.encode() {
        Ok(res) => Ok(res.recovery_iter().map(|s| s.to_vec()).collect()),
        Err(_) => Err(CodecError::EncodingConfig),
    };
    out
}

/// The views of a sequence of indexed shards.
pub open spec fn pair_views(s: Seq<(u16, Vec<u8>)>) -> Seq<(u16, Seq<u8>)> {
    s.map_values(|p: (u16, Vec<u8>)| (p.0, p.1@))
}

/// Whether every indexed shard in `shards` is the recovery shard of `orig` at
/// its index, `orig` being original shards of length `shard_bytes`.
pub open spec fn shards_match(
    orig: Seq<Seq<u8>>,
    recovery_count: int,
    shard_bytes: int,
    shards: Seq<(u16, Seq<u8>)>,
) -> bool {
    &&& (forall|k: int| 0 <= k < orig.len() ==> (#[trigger] orig[k]).len() == shard_bytes)
    &&& (forall|j: int|
        0 <= j < shards.len() ==> (#[trigger] shards[j]).1 == rs_recovery(orig, recovery_count)[shards[j].0 as int])
}

/// Relies on `reed_solomon_simd::ReedSolomonDecoder`: with a supported
/// configuration, given at least `original_count` distinct in-range recovery
/// shards of the configured length, decoding succeeds and returns the
/// restored original shards in index order; when the given shards are the
/// erasure coder's recovery shards of some original shard sequence, the
/// restored shards are exactly that sequence.
#[verifier::external_body]
pub(crate) fn rs_decode(
    original_count: usize,
    recovery_count: usize,
    shard_bytes: usize,
    shards: &Vec<(u16, Vec<u8>)>,
) -> (r: Result<Vec<Vec<u8>>, CodecError>)
    requires
        rs_params_ok(original_count as int, recovery_count as int, shard_bytes as int),
        shards@.map_values(|p: (u16, Vec<u8>)| p.0).no_duplicates(),
        forall|i: int|
            0 <= i < shards@.len() ==> (#[trigger] shards@[i]).0 < recovery_count && shards@[i].1@.len()
                == shard_bytes,
        shards@.len() >= original_count,
    ensures
        r is Ok,
        r matches Ok(out) ==> {
            &&& out@.len() == original_count
            &&& (forall|i: int| 0 <= i < out@.len() ==> (#[trigger] out@[i])@.len() == shard_bytes)
            &&& (forall|orig: Seq<Seq<u8>>|
                orig.len() == original_count && #[trigger] shards_match(
                    orig,
                    recovery_count as int,
                    shard_bytes as int,
                    pair_views(shards@),
                ) ==> out@.map_values(|x: Vec<u8>| x@) == orig)
        },
{
    let mut dec =
        match reed_solomon_simd::ReedSolomonDecoder::new(original_count, recovery_count, shard_bytes) {
            Ok(d) => d,
            Err(_) => return Err(CodecError::EncodingConfig),
        };
    for (index, data) in shards.iter() {
        if dec.add_recovery_shard(*index as usize, data).is_err() {
            return Err(CodecError::EncodingConfig);
        }
    }
    let out = match dec.decode() {
        Ok(res) => Ok(res.restored_original_iter().map(|(_, s)| s.to_vec()).collect()),
        Err(_) => Err(CodecError::InsufficientData),
    };
    out
}

} // verus!
