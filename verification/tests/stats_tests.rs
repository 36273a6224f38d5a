use miner_stats::block::CachedBlock;
use miner_stats::block::CoinbaseOutput;
use miner_stats::cache::BlockCache;
use miner_stats::stats::compute_statistics;
use miner_stats::stats::derivation_index_valid;
use miner_stats::stats::percent_share_blocks;
use miner_stats::stats::zats_to_wec_centi;
use miner_stats::stats::MinerInput;

fn output(value: i64, addresses: &[&str]) -> CoinbaseOutput {
    CoinbaseOutput {
        value_zat: value,
        addresses: addresses.iter().map(|a| String::from(*a)).collect(),
    }
}

fn block(height: u32, hash: &str, outputs: Vec<CoinbaseOutput>) -> CachedBlock {
    CachedBlock { height, hash: String::from(hash), outputs }
}

fn scenario_cache() -> BlockCache {
    BlockCache {
        last_tip: Some(102),
        blocks: vec![
            block(100, "h100", vec![output(500_000_000, &["addrA"])]),
            block(101, "h101", vec![]),
            block(102, "h102", vec![output(300_000_000, &["addrB"])]),
        ],
    }
}

fn scenario_miner() -> MinerInput {
    MinerInput {
        label: String::from("M"),
        addresses: vec![
            Some(String::from("addrA")),
            Some(String::from("addrX")),
            Some(String::from("addrX")),
        ],
    }
}

#[test]
fn scenario_single_miner_three_heights() {
    let cache = scenario_cache();
    let miners = vec![scenario_miner()];
    let report = compute_statistics(&miners, &cache, 100, 102);
    assert_eq!(report.start_height, 100);
    assert_eq!(report.end_height, 102);
    assert_eq!(report.detailed_miners.len(), 1);
    let m = &report.detailed_miners[0];
    assert_eq!(m.label, "M");
    assert_eq!(m.matched_blocks, 1);
    assert_eq!(m.total_value_zat, 500_000_000);
    assert_eq!(m.total_value_wec_centi, 500);
    assert_eq!(m.share_percent_bp, 3333);
    assert_eq!(m.detailed_blocks.len(), 1);
    assert_eq!(m.detailed_blocks[0].block_height, 100);
    assert_eq!(m.detailed_blocks[0].block_hash, "h100");
    assert_eq!(m.detailed_blocks[0].payout_address, "addrA");
    assert_eq!(report.total_mined_blocks, 1);
    assert_eq!(report.unmatched.blocks, 2);
    assert_eq!(report.unmatched.total_value_zat, 300_000_000);
    assert_eq!(report.total_value_zat, 800_000_000);
    assert_eq!(report.total_value_wec_centi, 800);
    assert_eq!(report.miners.len(), 1);
    assert_eq!(report.miners[0].matched_blocks, 1);
    assert_eq!(report.miners[0].total_value_zat, 500_000_000);
}

#[test]
fn rerun_on_complete_cache_is_idempotent() {
    let mut cache = scenario_cache();
    let miners = vec![scenario_miner()];
    assert!(cache.missing_heights(100, 102).is_empty());
    let changed = cache.refresh_tip(102);
    assert!(!changed);
    let first = compute_statistics(&miners, &cache, 100, 102);
    let second = compute_statistics(&miners, &cache, 100, 102);
    assert_eq!(first.total_mined_blocks, second.total_mined_blocks);
    assert_eq!(first.total_value_zat, second.total_value_zat);
    assert_eq!(first.total_value_wec_centi, second.total_value_wec_centi);
    assert_eq!(first.unmatched.blocks, second.unmatched.blocks);
    assert_eq!(first.unmatched.total_value_zat, second.unmatched.total_value_zat);
    assert_eq!(
        first.detailed_miners[0].total_value_zat,
        second.detailed_miners[0].total_value_zat
    );
    assert_eq!(
        first.detailed_miners[0].share_percent_bp,
        second.detailed_miners[0].share_percent_bp
    );
}

#[test]
fn miner_order_does_not_change_global_totals() {
    let cache = BlockCache {
        last_tip: None,
        blocks: vec![
            block(
                10,
                "hA",
                vec![output(100, &["a1"]), output(250, &["a2"]), output(40, &["a1", "a2"])],
            ),
            block(11, "hB", vec![output(700, &["zz"])]),
        ],
    };
    let m1 = MinerInput {
        label: String::from("one"),
        addresses: vec![Some(String::from("a1")), Some(String::from("none"))],
    };
    let m2 = MinerInput {
        label: String::from("two"),
        addresses: vec![Some(String::from("a2")), Some(String::from("none"))],
    };
    let forward = vec![
        MinerInput { label: m1.label.clone(), addresses: m1.addresses.clone() },
        MinerInput { label: m2.label.clone(), addresses: m2.addresses.clone() },
    ];
    let backward = vec![m2, m1];
    let r1 = compute_statistics(&forward, &cache, 10, 11);
    let r2 = compute_statistics(&backward, &cache, 10, 11);
    assert_eq!(r1.total_mined_blocks, r2.total_mined_blocks);
    assert_eq!(r1.total_value_zat, r2.total_value_zat);
    assert_eq!(r1.unmatched.total_value_zat, r2.unmatched.total_value_zat);
    assert_eq!(r1.unmatched.blocks, r2.unmatched.blocks);
    // each miner's own aggregate is unchanged, only its position moves
    assert_eq!(r1.detailed_miners[0].total_value_zat, r2.detailed_miners[1].total_value_zat);
    assert_eq!(r1.detailed_miners[1].total_value_zat, r2.detailed_miners[0].total_value_zat);
    // the deduplicated global total counts the best miner at height 10 once:
    // miner one matches 140, miner two matches 290, so 290 + unmatched 700
    assert_eq!(r1.total_value_zat, 990);
}

#[test]
fn coinbase_total_sums_all_output_values() {
    let b = block(5, "h", vec![output(10, &["x"]), output(-3, &[]), output(7, &["y", "z"])]);
    assert_eq!(b.coinbase_total(), 14);
}

#[test]
fn matched_value_sums_only_matching_outputs() {
    let b = block(
        5,
        "h",
        vec![output(10, &["x"]), output(20, &["y"]), output(5, &["x", "y"])],
    );
    assert_eq!(b.matched_value(&String::from("x")), 15);
    assert_eq!(b.matched_value(&String::from("y")), 25);
    assert_eq!(b.matched_value(&String::from("q")), 0);
}

#[test]
fn share_of_empty_range_is_zero() {
    assert_eq!(percent_share_blocks(0, 0), 0);
}

#[test]
fn share_is_rounded_half_up_in_basis_points() {
    assert_eq!(percent_share_blocks(1, 3), 3333);
    assert_eq!(percent_share_blocks(2, 3), 6667);
    assert_eq!(percent_share_blocks(1, 32), 313);
    assert_eq!(percent_share_blocks(3, 3), 10000);
}

#[test]
fn display_conversion_rounds_half_away_from_zero() {
    assert_eq!(zats_to_wec_centi(500_000_000), 500);
    assert_eq!(zats_to_wec_centi(123_456_789), 123);
    assert_eq!(zats_to_wec_centi(1_500_000), 2);
    assert_eq!(zats_to_wec_centi(-1_500_000), -2);
    assert_eq!(zats_to_wec_centi(0), 0);
    assert_eq!(zats_to_wec_centi(-300_000_000), -300);
}

#[test]
fn derivation_index_policy_is_31_bits() {
    assert!(derivation_index_valid(0));
    assert!(derivation_index_valid(0x7FFF_FFFF));
    assert!(!derivation_index_valid(0x8000_0000));
    assert!(!derivation_index_valid(u32::MAX));
}

#[test]
fn length_one_range_gives_full_share() {
    let cache = BlockCache {
        last_tip: None,
        blocks: vec![block(7, "h7", vec![output(100, &["a"])])],
    };
    let miners = vec![MinerInput {
        label: String::from("m"),
        addresses: vec![Some(String::from("a"))],
    }];
    let report = compute_statistics(&miners, &cache, 7, 7);
    assert_eq!(report.detailed_miners[0].share_percent_bp, 10000);
    assert_eq!(report.unmatched.blocks, 0);
    assert_eq!(report.unmatched.share_percent_bp, 0);
}

#[test]
fn skipped_derivation_contributes_nothing() {
    let cache = scenario_cache();
    let miners = vec![MinerInput {
        label: String::from("m"),
        addresses: vec![None, None, None],
    }];
    let report = compute_statistics(&miners, &cache, 100, 102);
    assert_eq!(report.detailed_miners[0].matched_blocks, 0);
    assert_eq!(report.total_mined_blocks, 0);
    assert_eq!(report.unmatched.blocks, 3);
    assert_eq!(report.unmatched.total_value_zat, 800_000_000);
}
