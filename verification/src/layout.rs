use crate::arith::{add_checked, div_ceil_usize, div_up, mul_checked, prev_mult_64, prev_multiple_64};
use crate::bytes::subvec;
use crate::errors::CodecError;
use crate::symbol::{qr_data_bits, qr_max_data_bits, EcLevel};
use vstd::prelude::*;

verus! {

/// Paper size options.
#[derive(Clone, Copy, Debug, PartialEq, Eq, Structural)]
pub enum PaperSize {
    A4,
    Letter,
}

/// The dimensions of a sheet of paper, in micrometres.
#[derive(Clone, Copy, Debug, PartialEq, Eq, Structural)]
pub struct PageDimensions {
    pub width: u32,
    pub height: u32,
}

impl PaperSize {
    /// The physical dimensions of this paper size.
    pub fn dimensions(self) -> (r: PageDimensions)
        ensures
            self == PaperSize::A4 ==> r == (PageDimensions { width: 210000u32, height: 297000u32 }),
            self == PaperSize::Letter ==> r == (PageDimensions {
                width: 215900u32,
                height: 279400u32,
            }),
    {
        match self {
            PaperSize::A4 => PageDimensions { width: 210000, height: 297000 },
            PaperSize::Letter => PageDimensions { width: 215900, height: 279400 },
        }
    }
}

/// How much recovery data to generate beyond the minimum needed.
#[derive(Clone, Copy, Debug, PartialEq, Eq, Structural)]
pub enum RecoveryFactor {
    /// Recovery amount as a percentage of the required data shards.
    Percentage(u32),
    /// Recovery amount as a fixed number of extra pages.
    Pages(usize),
}

/// Horizontal anchoring of a run of banner text.
#[derive(Clone, Copy, Debug, PartialEq, Eq, Structural)]
pub enum Alignment {
    Left,
    Center,
    Right,
}

/// The inputs of the layout search. Lengths are in micrometres.
#[derive(Clone, Copy, Debug, PartialEq, Eq, Structural)]
pub struct LayoutConfig {
    /// Total width of the page.
    pub page_width: u32,
    /// Total height of the page.
    pub page_height: u32,
    pub margin_top: u32,
    pub margin_right: u32,
    pub margin_bottom: u32,
    pub margin_left: u32,
    /// The length of one module (pixel) of a symbol.
    pub module_length: u32,
    /// Minimum number of symbols per row.
    pub row_count: usize,
    /// Minimum error-correction level.
    pub error_correction: EcLevel,
    /// Redundancy policy.
    pub recovery_factor: RecoveryFactor,
}

/// The chosen page layout. Lengths are in micrometres.
#[derive(Debug)]
pub struct Options {
    /// Total width of the page.
    pub page_width: u32,
    /// Total height of the page.
    pub page_height: u32,
    pub margin_bottom: u32,
    pub margin_left: u32,
    /// The length of one module (pixel) of a symbol.
    pub module_length: u32,
    /// The available width, excluding margins.
    pub avail_width: u32,
    /// The available height, excluding margins.
    pub avail_height: u32,
    /// Identifier for this document.
    pub identifier: Vec<u8>,
    /// Hash of the original input file.
    pub hash: Vec<u8>,
    /// The chosen symbol version (capacity class), 1 to 40.
    pub version: u8,
    /// The chosen error-correction level.
    pub level: EcLevel,
    /// The number of symbols per row / column.
    pub shards_per_row: usize,
    /// The number of data bytes stored per symbol, excluding the header.
    pub data_bytes_per_shard: usize,
    /// The total number of data shards; these are never rendered.
    pub data_shard_count: usize,
    /// The total number of recovery shards: the data shard count plus the
    /// configured extra, rounded up to whole pages.
    pub recovery_shard_count: usize,
    /// The minimum number of pages needed to recover the data.
    pub data_page_count: usize,
    /// The number of total pages.
    pub recovery_page_count: usize,
}

/// The printable width of the page: the page width minus the side margins.
pub open spec fn avail_width(cfg: LayoutConfig) -> int {
    if cfg.page_width >= cfg.margin_left + cfg.margin_right {
        cfg.page_width - cfg.margin_left - cfg.margin_right
    } else {
        0
    }
}

/// The printable height of the page: the page height minus the top and bottom
/// margins.
pub open spec fn avail_height(cfg: LayoutConfig) -> int {
    if cfg.page_height >= cfg.margin_top + cfg.margin_bottom {
        cfg.page_height - cfg.margin_top - cfg.margin_bottom
    } else {
        0
    }
}

/// The square working dimension: the smaller printable dimension.
pub open spec fn avail_min(cfg: LayoutConfig) -> int {
    if avail_width(cfg) <= avail_height(cfg) {
        avail_width(cfg)
    } else {
        avail_height(cfg)
    }
}

/// Width of the quiet zone around and between symbols.
pub open spec fn quiet_zone(cfg: LayoutConfig) -> int {
    4 * cfg.module_length
}

/// The side length of a symbol of the given version in modules.
pub open spec fn symbol_width(v: int) -> int {
    4 * v + 17
}

/// The width one symbol occupies, with one side of quiet zone.
pub open spec fn width_per_shard(cfg: LayoutConfig, v: int) -> int {
    cfg.module_length * (symbol_width(v) + 4)
}

/// How many symbols of the given version fit in one row.
pub open spec fn spr_of(cfg: LayoutConfig, v: int) -> int {
    if avail_min(cfg) >= quiet_zone(cfg) {
        (avail_min(cfg) - quiet_zone(cfg)) / width_per_shard(cfg, v)
    } else {
        0
    }
}

/// Bits taken by the mode indicator and the character-count indicator.
pub open spec fn header_overhead_bits(v: int) -> int {
    if v <= 9 {
        12
    } else {
        20
    }
}

/// Whole bytes available for data in a symbol of the given version and level
/// rank.
pub open spec fn raw_shard_bytes(v: int, lr: int) -> int {
    let bits = qr_data_bits(v, lr) as int;
    if bits >= header_overhead_bits(v) {
        (bits - header_overhead_bits(v)) / 8
    } else {
        0
    }
}

/// Data bytes per shard for a candidate, after subtracting the payload header.
pub open spec fn cand_dbps(v: int, lr: int) -> int {
    let raw = raw_shard_bytes(v, lr);
    if raw >= 6 {
        raw - 6
    } else {
        0
    }
}

/// Usable data bytes per page for a candidate: the per-shard bytes rounded
/// down to the coding block size, times the symbols on a page.
pub open spec fn cand_per_page(cfg: LayoutConfig, v: int, lr: int) -> int {
    prev_mult_64(cand_dbps(v, lr)) * spr_of(cfg, v) * spr_of(cfg, v)
}

/// Whether a candidate respects the configured minimums.
pub open spec fn eligible(cfg: LayoutConfig, v: int, lr: int) -> bool {
    spr_of(cfg, v) >= cfg.row_count && lr >= cfg.error_correction.rank_spec()
}

/// One tracked configuration of the layout search.
#[verifier::ext_equal]
pub ghost struct Choice {
    pub per_page: int,
    pub version: int,
    pub level: int,
    pub spr: int,
    pub dbps: int,
}

/// The search's starting state: nothing chosen yet.
pub open spec fn init_choice() -> Choice {
    Choice { per_page: 0, version: 1, level: 0, spr: 0, dbps: 0 }
}

/// One search step: replace the tracked configuration when the candidate is
/// eligible and fits strictly more data per page.
pub open spec fn upd(acc: Choice, cfg: LayoutConfig, v: int, lr: int) -> Choice {
    if eligible(cfg, v, lr) && cand_per_page(cfg, v, lr) > acc.per_page {
        Choice {
            per_page: cand_per_page(cfg, v, lr),
            version: v,
            level: lr,
            spr: spr_of(cfg, v),
            dbps: cand_dbps(v, lr),
        }
    } else {
        acc
    }
}

/// The tracked configuration after considering the levels of version `v` from
/// position `li` on, in decreasing correction order.
pub open spec fn best_in_version(cfg: LayoutConfig, v: int, li: int, acc: Choice) -> Choice
    decreases 4 - li,
{
    if li < 0 || li >= 4 {
        acc
    } else {
        best_in_version(cfg, v, li + 1, upd(acc, cfg, v, 3 - li))
    }
}

/// The tracked configuration after considering all versions from `v` on.
pub open spec fn best_from(cfg: LayoutConfig, v: int, acc: Choice) -> Choice
    decreases 41 - v,
{
    if v < 1 || v > 40 {
        acc
    } else {
        best_from(cfg, v + 1, best_in_version(cfg, v, 0, acc))
    }
}

/// The configuration the layout search settles on.
pub open spec fn best_choice(cfg: LayoutConfig) -> Choice {
    best_from(cfg, 1, init_choice())
}

/// What is known of the tracked configuration at any point of the search: it
/// is either still the starting state, or a well-formed eligible candidate.
pub open spec fn choice_inv(cfg: LayoutConfig, c: Choice) -> bool {
    c == init_choice() || {
        &&& 1 <= c.version <= 40
        &&& 0 <= c.level <= 3
        &&& eligible(cfg, c.version, c.level)
        &&& c.spr == spr_of(cfg, c.version)
        &&& c.dbps == cand_dbps(c.version, c.level)
        &&& c.per_page == cand_per_page(cfg, c.version, c.level)
        &&& c.per_page > 0
    }
}

proof fn lemma_inv_in_version(cfg: LayoutConfig, v: int, li: int, acc: Choice)
    requires
        choice_inv(cfg, acc),
        1 <= v <= 40,
    ensures
        choice_inv(cfg, best_in_version(cfg, v, li, acc)),
        best_in_version(cfg, v, li, acc).per_page >= acc.per_page,
    decreases 4 - li,
{
    if 0 <= li < 4 {
        let next = upd(acc, cfg, v, 3 - li);
        assert(choice_inv(cfg, next));
        lemma_inv_in_version(cfg, v, li + 1, next);
    }
}

proof fn lemma_inv_from(cfg: LayoutConfig, v: int, acc: Choice)
    requires
        choice_inv(cfg, acc),
    ensures
        choice_inv(cfg, best_from(cfg, v, acc)),
    decreases 41 - v,
{
    if 1 <= v <= 40 {
        lemma_inv_in_version(cfg, v, 0, acc);
        lemma_inv_from(cfg, v + 1, best_in_version(cfg, v, 0, acc));
    }
}

proof fn lemma_skip_version(cfg: LayoutConfig, v: int, li: int, acc: Choice)
    requires
        spr_of(cfg, v) < cfg.row_count,
    ensures
        best_in_version(cfg, v, li, acc) == acc,
    decreases 4 - li,
{
    if 0 <= li < 4 {
        assert(upd(acc, cfg, v, 3 - li) == acc);
        lemma_skip_version(cfg, v, li + 1, acc);
    }
}

/// The chosen data bytes per shard, rounded down to the coding block size.
pub open spec fn spec_dbps(cfg: LayoutConfig) -> int {
    prev_mult_64(best_choice(cfg).dbps)
}

/// Symbols per page: the chosen symbols-per-row, squared.
pub open spec fn spec_spp(cfg: LayoutConfig) -> int {
    best_choice(cfg).spr * best_choice(cfg).spr
}

/// Data shards needed for a file of `ds` bytes plus its 8-byte trailer.
pub open spec fn spec_dsc(cfg: LayoutConfig, ds: int) -> int {
    div_up(ds + 8, spec_dbps(cfg))
}

/// Pages needed for the data shards alone.
pub open spec fn spec_dpc(cfg: LayoutConfig, ds: int) -> int {
    div_up(spec_dsc(cfg, ds), spec_spp(cfg))
}

/// Extra whole pages of recovery shards implied by the redundancy policy.
pub open spec fn spec_extra_pages(cfg: LayoutConfig, ds: int) -> int {
    match cfg.recovery_factor {
        RecoveryFactor::Pages(c) => c as int,
        RecoveryFactor::Percentage(p) => div_up(
            (p as int * spec_dsc(cfg, ds)) / 100,
            spec_spp(cfg),
        ),
    }
}

/// Total recovery shards: the data shard count plus the extra pages' worth.
pub open spec fn spec_rsc(cfg: LayoutConfig, ds: int) -> int {
    spec_dsc(cfg, ds) + spec_extra_pages(cfg, ds) * spec_spp(cfg)
}

/// Total pages to render.
pub open spec fn spec_rpc(cfg: LayoutConfig, ds: int) -> int {
    spec_dpc(cfg, ds) + spec_extra_pages(cfg, ds)
}

/// Whether the derived counts stay within the machine's address range.
pub open spec fn arith_ok(cfg: LayoutConfig, ds: int) -> bool {
    &&& spec_spp(cfg) <= usize::MAX
    &&& (match cfg.recovery_factor {
        RecoveryFactor::Percentage(p) => p as int * spec_dsc(cfg, ds) <= usize::MAX,
        RecoveryFactor::Pages(_) => true,
    })
    &&& spec_extra_pages(cfg, ds) * spec_spp(cfg) <= usize::MAX
    &&& spec_rsc(cfg, ds) <= usize::MAX
    &&& spec_rpc(cfg, ds) <= usize::MAX
}

/// When the layout search succeeds: some candidate holds at least one coding
/// block of data, and the derived counts are representable.
pub open spec fn plan_ok(cfg: LayoutConfig, ds: int) -> bool {
    best_choice(cfg).dbps >= 70 && arith_ok(cfg, ds)
}

/// Computes the layout: searches the discrete space of symbol configurations
/// for the one maximizing usable data bytes per page within the configured
/// minimums, then derives the shard and page counts for a file of
/// `data_size` bytes. The search is deterministic: the result is a pure
/// function of the arguments, as the contract states.
pub fn compute(
    cfg: &LayoutConfig,
    data_size: usize,
    identifier: &Vec<u8>,
    hash: &Vec<u8>,
) -> (r: Result<Options, CodecError>)
    requires
        cfg.module_length >= 1,
        identifier@.len() == 4,
        hash@.len() == 64,
        data_size <= usize::MAX - 8,
    ensures
        r is Ok <==> plan_ok(*cfg, data_size as int),
        r matches Err(e) ==> e == CodecError::Planning,
        r matches Ok(plan) ==> {
            &&& plan.identifier@ == identifier@
            &&& plan.hash@ == hash@
            &&& plan.page_width == cfg.page_width
            &&& plan.page_height == cfg.page_height
            &&& plan.margin_bottom == cfg.margin_bottom
            &&& plan.margin_left == cfg.margin_left
            &&& plan.module_length == cfg.module_length
            &&& plan.avail_width == avail_width(*cfg)
            &&& plan.avail_height == avail_height(*cfg)
            &&& plan.version as int == best_choice(*cfg).version
            &&& plan.level.rank_spec() == best_choice(*cfg).level
            &&& plan.shards_per_row as int == best_choice(*cfg).spr
            &&& plan.data_bytes_per_shard as int == spec_dbps(*cfg)
            &&& plan.data_shard_count as int == spec_dsc(*cfg, data_size as int)
            &&& plan.recovery_shard_count as int == spec_rsc(*cfg, data_size as int)
            &&& plan.data_page_count as int == spec_dpc(*cfg, data_size as int)
            &&& plan.recovery_page_count as int == spec_rpc(*cfg, data_size as int)
            &&& plan.data_bytes_per_shard >= 64
            &&& plan.data_bytes_per_shard % 64 == 0
            &&& plan.data_shard_count >= 1
            &&& plan.shards_per_row >= 1
            &&& plan.recovery_shard_count >= plan.data_shard_count
            &&& plan.data_shard_count * plan.data_bytes_per_shard >= data_size + 8
            &&& plan.data_shard_count * plan.data_bytes_per_shard < data_size + 8
                + plan.data_bytes_per_shard
        },
{
    let pw = cfg.page_width as u64;
    let ph = cfg.page_height as u64;
    let ml = cfg.margin_left as u64;
    let mr = cfg.margin_right as u64;
    let mt = cfg.margin_top as u64;
    let mb = cfg.margin_bottom as u64;
    let aw: u64 = if pw >= ml + mr {
        pw - ml - mr
    } else {
        0
    };
    let ah: u64 = if ph >= mt + mb {
        ph - mt - mb
    } else {
        0
    };
    let amin: u64 = if aw <= ah {
        aw
    } else {
        ah
    };
    let quiet: u64 = 4 * (cfg.module_length as u64);

    let mut best_pp: u128 = 0;
    let mut best_version: u8 = 1;
    let mut best_level: EcLevel = EcLevel::L;
    let mut best_spr: u64 = 0;
    let mut best_dbps: usize = 0;
    let ghost mut cur: Choice = init_choice();
    assert(best_from(*cfg, 1, cur) == best_choice(*cfg));

    let mut v: u8 = 1;
    while v <= 40
        invariant
            1 <= v <= 41,
            cfg.module_length >= 1,
            aw == avail_width(*cfg),
            ah == avail_height(*cfg),
            amin == avail_min(*cfg),
            quiet == quiet_zone(*cfg),
            amin <= u32::MAX,
            best_spr <= u32::MAX,
            cur == (Choice {
                per_page: best_pp as int,
                version: best_version as int,
                level: best_level.rank_spec(),
                spr: best_spr as int,
                dbps: best_dbps as int,
            }),
            choice_inv(*cfg, cur),
            best_from(*cfg, v as int, cur) == best_choice(*cfg),
        decreases 41 - v,
    {
        proof {
            assert((cfg.module_length as int) * (4 * (v as int) + 21) <= (u32::MAX as int) * 181
                && (cfg.module_length as int) * (4 * (v as int) + 21) >= 25) by (nonlinear_arith)
                requires
                    1 <= cfg.module_length <= u32::MAX,
                    1 <= v <= 40,
            ;
        }
        let wps: u64 = (cfg.module_length as u64) * (4 * (v as u64) + 21);
        assert(wps == width_per_shard(*cfg, v as int)) by {
            assert((cfg.module_length as int) * (4 * (v as int) + 21) == width_per_shard(
                *cfg,
                v as int,
            ));
        }
        let spr: u64 = if amin >= quiet {
            (amin - quiet) / wps
        } else {
            0
        };
        assert(spr == spr_of(*cfg, v as int));
        assert(spr <= amin) by {
            if amin >= quiet {
                vstd::arithmetic::div_mod::lemma_div_is_ordered_by_denominator(
                    (amin - quiet) as int,
                    1,
                    wps as int,
                );
                vstd::arithmetic::div_mod::lemma_div_is_ordered(
                    (amin - quiet) as int,
                    amin as int,
                    1,
                );
            }
        }
        if spr < (cfg.row_count as u64) {
            proof {
                lemma_skip_version(*cfg, v as int, 0, cur);
            }
            v = v + 1;
            continue ;
        }
        let ghost entry = cur;
        let mut li: u8 = 0;
        while li < 4
            invariant
                0 <= li <= 4,
                1 <= v <= 40,
                cfg.module_length >= 1,
                aw == avail_width(*cfg),
                ah == avail_height(*cfg),
                amin == avail_min(*cfg),
                quiet == quiet_zone(*cfg),
                spr == spr_of(*cfg, v as int),
                spr >= cfg.row_count,
                spr <= amin,
                amin <= u32::MAX,
                best_spr <= u32::MAX,
                cur == (Choice {
                    per_page: best_pp as int,
                    version: best_version as int,
                    level: best_level.rank_spec(),
                    spr: best_spr as int,
                    dbps: best_dbps as int,
                }),
                choice_inv(*cfg, cur),
                best_in_version(*cfg, v as int, li as int, cur) == best_in_version(
                    *cfg,
                    v as int,
                    0,
                    entry,
                ),
                best_from(*cfg, v as int + 1, best_in_version(*cfg, v as int, 0, entry))
                    == best_choice(*cfg),
            decreases 4 - li,
        {
            let level = if li == 0 {
                EcLevel::H
            } else if li == 1 {
                EcLevel::Q
            } else if li == 2 {
                EcLevel::M
            } else {
                EcLevel::L
            };
            let ghost lr: int = 3 - li as int;
            assert(level.rank_spec() == lr);
            if level.rank() < cfg.error_correction.rank() {
                proof {
                    assert(!eligible(*cfg, v as int, lr));
                    assert(upd(cur, *cfg, v as int, lr) == cur);
                }
                li = li + 1;
                continue ;
            }
            assert(eligible(*cfg, v as int, lr));
            let bits = qr_max_data_bits(v, level);
            let oh: usize = if v <= 9 {
                12
            } else {
                20
            };
            assert(oh == header_overhead_bits(v as int));
            if bits < oh {
                proof {
                    assert(cand_dbps(v as int, lr) == 0);
                    assert(prev_mult_64(0) == 0);
                    assert(0 * spr_of(*cfg, v as int) * spr_of(*cfg, v as int) == 0)
                        by (nonlinear_arith);
                    assert(cand_per_page(*cfg, v as int, lr) == 0);
                    assert(upd(cur, *cfg, v as int, lr) == cur);
                }
                li = li + 1;
                continue ;
            }
            let raw = (bits - oh) / 8;
            assert(raw == raw_shard_bytes(v as int, lr));
            if raw < 6 {
                proof {
                    assert(cand_dbps(v as int, lr) == 0);
                    assert(prev_mult_64(0) == 0);
                    assert(0 * spr_of(*cfg, v as int) * spr_of(*cfg, v as int) == 0)
                        by (nonlinear_arith);
                    assert(cand_per_page(*cfg, v as int, lr) == 0);
                    assert(upd(cur, *cfg, v as int, lr) == cur);
                }
                li = li + 1;
                continue ;
            }
            let dbps_c = raw - 6;
            assert(dbps_c == cand_dbps(v as int, lr));
            let p64 = prev_multiple_64(dbps_c);
            proof {
                assert((p64 as int) * (spr as int) <= (usize::MAX as int) * (u32::MAX as int)
                    && (p64 as int) * (spr as int) * (spr as int) <= (usize::MAX as int) * (
                u32::MAX as int) * (u32::MAX as int) && (usize::MAX as int) * (u32::MAX as int) * (
                u32::MAX as int) < u128::MAX) by (nonlinear_arith)
                    requires
                        0 <= p64 <= usize::MAX,
                        0 <= spr <= u32::MAX,
                        usize::MAX <= u64::MAX,
                ;
            }
            let pp: u128 = (p64 as u128) * (spr as u128) * (spr as u128);
            assert(pp == cand_per_page(*cfg, v as int, lr));
            if pp > best_pp {
                best_pp = pp;
                best_version = v;
                best_level = level;
                best_spr = spr;
                best_dbps = dbps_c;
                proof {
                    let next = upd(cur, *cfg, v as int, lr);
                    assert(next.per_page == cand_per_page(*cfg, v as int, lr));
                    cur = next;
                }
            } else {
                proof {
                    assert(upd(cur, *cfg, v as int, lr) == cur);
                }
            }
            li = li + 1;
        }
        proof {
            assert(best_in_version(*cfg, v as int, 4, cur) == cur);
        }
        v = v + 1;
    }
    assert(cur == best_choice(*cfg));

    if best_dbps < 70 {
        return Err(CodecError::Planning);
    }
    proof {
        lemma_inv_from(*cfg, 1, init_choice());
    }
    assert(choice_inv(*cfg, cur) && cur.dbps >= 70 && cur != init_choice());
    assert(best_spr >= 1) by {
        assert(cur.spr == spr_of(*cfg, cur.version) && cur.dbps == cand_dbps(
            cur.version,
            cur.level,
        ) && cur.per_page == cand_per_page(*cfg, cur.version, cur.level) && cur.per_page > 0);
        let a = prev_mult_64(cand_dbps(cur.version, cur.level));
        let s = spr_of(*cfg, cur.version);
        assert(s >= 1) by (nonlinear_arith)
            requires
                a * s * s > 0,
                s >= 0,
        ;
    }

    let d = prev_multiple_64(best_dbps);
    assert(d >= 64) by {
        assert(d % 64 == 0 && d >= 70 - 63);
        if d < 64 {
            assert(d % 64 == d) by {
                vstd::arithmetic::div_mod::lemma_small_mod(d as nat, 64);
            }
        }
    }
    proof {
        assert((best_spr as int) * (best_spr as int) <= (u32::MAX as int) * (u32::MAX as int) && (
        best_spr as int) * (best_spr as int) >= 1 && (u32::MAX as int) * (u32::MAX as int)
            < u64::MAX) by (nonlinear_arith)
            requires
                1 <= best_spr <= u32::MAX,
        ;
    }
    let spp64: u64 = best_spr * best_spr;
    assert(spp64 == spec_spp(*cfg) && spp64 >= 1);
    if spp64 > (usize::MAX as u64) {
        return Err(CodecError::Planning);
    }
    let spp = spp64 as usize;
    let dsc = div_ceil_usize(data_size + 8, d);
    proof {
        crate::arith::lemma_div_up(data_size as int + 8, d as int);
    }
    assert(dsc >= 1) by {
        assert(div_up(data_size as int + 8, d as int) * (d as int) >= 8);
        assert(0 * (d as int) < 8) by (nonlinear_arith);
    }
    let dpc = div_ceil_usize(dsc, spp);
    let e: usize = match cfg.recovery_factor {
        RecoveryFactor::Pages(c) => c,
        RecoveryFactor::Percentage(p) => {
            match mul_checked(p as usize, dsc) {
                Some(x) => div_ceil_usize(x / 100, spp),
                None => {
                    return Err(CodecError::Planning);
                },
            }
        },
    };
    let es = match mul_checked(e, spp) {
        Some(x) => x,
        None => {
            return Err(CodecError::Planning);
        },
    };
    let rsc = match add_checked(dsc, es) {
        Some(x) => x,
        None => {
            return Err(CodecError::Planning);
        },
    };
    let rpc = match add_checked(dpc, e) {
        Some(x) => x,
        None => {
            return Err(CodecError::Planning);
        },
    };
    let id_copy = subvec(identifier, 0, identifier.len());
    let hash_copy = subvec(hash, 0, hash.len());
    proof {
        assert(id_copy@ =~= identifier@);
        assert(hash_copy@ =~= hash@);
        assert(best_spr <= spp64) by (nonlinear_arith)
            requires
                1 <= best_spr,
                spp64 == best_spr * best_spr,
        ;
        assert(es >= 0);
    }
    Ok(
        Options {
            page_width: cfg.page_width,
            page_height: cfg.page_height,
            margin_bottom: cfg.margin_bottom,
            margin_left: cfg.margin_left,
            module_length: cfg.module_length,
            avail_width: aw as u32,
            avail_height: ah as u32,
            identifier: id_copy,
            hash: hash_copy,
            version: best_version,
            level: best_level,
            shards_per_row: best_spr as usize,
            data_bytes_per_shard: d,
            data_shard_count: dsc,
            recovery_shard_count: rsc,
            data_page_count: dpc,
            recovery_page_count: rpc,
        },
    )
}

} // verus!
