use paperpack::errors::CodecError;
use paperpack::layout::{compute, LayoutConfig, PaperSize, RecoveryFactor};
use paperpack::symbol::EcLevel;

fn a4_config() -> LayoutConfig {
    let page = PaperSize::A4.dimensions();
    LayoutConfig {
        page_width: page.width,
        page_height: page.height,
        margin_top: 4320,
        margin_right: 4320,
        margin_bottom: 4320,
        margin_left: 4320,
        module_length: 1000,
        row_count: 3,
        error_correction: EcLevel::Q,
        recovery_factor: RecoveryFactor::Percentage(50),
    }
}

fn sample_id_hash() -> (Vec<u8>, Vec<u8>) {
    let mut hash = Vec::new();
    for i in 0..64u32 {
        hash.push((i * 7 % 251) as u8);
    }
    (hash[0..4].to_vec(), hash)
}

#[test]
fn layout_scenario_ten_thousand_bytes() {
    let (id, hash) = sample_id_hash();
    let plan = compute(&a4_config(), 10_000, &id, &hash).unwrap();
    // The winning configuration on an A4 page with one-millimetre modules.
    assert_eq!(plan.version, 10);
    assert_eq!(plan.level, EcLevel::Q);
    assert_eq!(plan.shards_per_row, 3);
    // Shard bytes are a whole number of coding blocks.
    assert_eq!(plan.data_bytes_per_shard, 128);
    assert_eq!(plan.data_bytes_per_shard % 64, 0);
    // original_count = ceil(padded size / shard bytes), with the 8-byte trailer.
    let expected_count = (10_000usize + 8).div_ceil(plan.data_bytes_per_shard);
    assert_eq!(plan.data_shard_count, expected_count);
    assert_eq!(plan.data_shard_count, 79);
    // recovery_count = original_count + ceil(50% of it, in whole pages).
    let per_page = plan.shards_per_row * plan.shards_per_row;
    let extra_pages = (50 * plan.data_shard_count / 100).div_ceil(per_page);
    assert_eq!(
        plan.recovery_shard_count,
        plan.data_shard_count + extra_pages * per_page
    );
    assert_eq!(plan.recovery_shard_count, 124);
    assert_eq!(plan.data_page_count, 9);
    assert_eq!(plan.recovery_page_count, 14);
}

#[test]
fn layout_is_deterministic() {
    let (id, hash) = sample_id_hash();
    let a = compute(&a4_config(), 54_321, &id, &hash).unwrap();
    let b = compute(&a4_config(), 54_321, &id, &hash).unwrap();
    assert_eq!(a.version, b.version);
    assert_eq!(a.level, b.level);
    assert_eq!(a.shards_per_row, b.shards_per_row);
    assert_eq!(a.data_bytes_per_shard, b.data_bytes_per_shard);
    assert_eq!(a.data_shard_count, b.data_shard_count);
    assert_eq!(a.recovery_shard_count, b.recovery_shard_count);
    assert_eq!(a.data_page_count, b.data_page_count);
    assert_eq!(a.recovery_page_count, b.recovery_page_count);
    assert_eq!(a.identifier, b.identifier);
    assert_eq!(a.hash, b.hash);
}

#[test]
fn layout_rejects_impossible_row_count() {
    let (id, hash) = sample_id_hash();
    let mut cfg = a4_config();
    cfg.row_count = 1000;
    assert_eq!(
        compute(&cfg, 10_000, &id, &hash).unwrap_err(),
        CodecError::Planning
    );
}

#[test]
fn layout_respects_minimum_error_correction() {
    let (id, hash) = sample_id_hash();
    let mut cfg = a4_config();
    cfg.error_correction = EcLevel::H;
    let plan = compute(&cfg, 10_000, &id, &hash).unwrap();
    assert_eq!(plan.level, EcLevel::H);
}

#[test]
fn layout_half_millimetre_modules() {
    let (id, hash) = sample_id_hash();
    let mut cfg = a4_config();
    cfg.module_length = 500;
    let plan = compute(&cfg, 10_000, &id, &hash).unwrap();
    assert!(plan.shards_per_row >= 3);
    assert!(plan.data_bytes_per_shard >= 64);
    assert_eq!(plan.data_bytes_per_shard % 64, 0);
}

#[test]
fn layout_fixed_page_recovery() {
    let (id, hash) = sample_id_hash();
    let mut cfg = a4_config();
    cfg.recovery_factor = RecoveryFactor::Pages(2);
    let plan = compute(&cfg, 10_000, &id, &hash).unwrap();
    let per_page = plan.shards_per_row * plan.shards_per_row;
    assert_eq!(
        plan.recovery_shard_count,
        plan.data_shard_count + 2 * per_page
    );
    assert_eq!(plan.recovery_page_count, plan.data_page_count + 2);
}

#[test]
fn paper_sizes() {
    let a4 = PaperSize::A4.dimensions();
    assert_eq!((a4.width, a4.height), (210_000, 297_000));
    let letter = PaperSize::Letter.dimensions();
    assert_eq!((letter.width, letter.height), (215_900, 279_400));
}
