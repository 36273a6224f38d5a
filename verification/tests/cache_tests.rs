use miner_stats::block::CachedBlock;
use miner_stats::block::CoinbaseOutput;
use miner_stats::cache::validate_range;
use miner_stats::cache::BlockCache;
use miner_stats::error::RpcFailure;
use miner_stats::error::StatsError;

fn simple_block(height: u32, hash: &str, value: i64, addr: &str) -> CachedBlock {
    CachedBlock {
        height,
        hash: String::from(hash),
        outputs: vec![CoinbaseOutput {
            value_zat: value,
            addresses: vec![String::from(addr)],
        }],
    }
}

fn rpc_err(method: &str) -> StatsError {
    StatsError::RpcError {
        method: String::from(method),
        failure: RpcFailure::MissingResult,
    }
}

#[test]
fn new_cache_is_empty() {
    let cache = BlockCache::new();
    assert_eq!(cache.last_tip, None);
    assert!(cache.blocks.is_empty());
    assert!(!cache.contains(0));
}

#[test]
fn insert_then_contains_and_get() {
    let mut cache = BlockCache::new();
    cache.insert(simple_block(42, "h42", 10, "a"));
    assert!(cache.contains(42));
    assert!(!cache.contains(41));
    let got = cache.get(42).unwrap();
    assert_eq!(got.hash, "h42");
    assert_eq!(got.outputs[0].value_zat, 10);
    assert!(cache.get(41).is_none());
}

#[test]
fn missing_heights_lists_only_the_holes() {
    let mut cache = BlockCache::new();
    cache.insert(simple_block(11, "h11", 1, "a"));
    cache.insert(simple_block(13, "h13", 1, "a"));
    let missing = cache.missing_heights(10, 14);
    assert_eq!(missing, vec![10, 12, 14]);
}

#[test]
fn range_below_start_is_rejected() {
    match validate_range(5, 4) {
        Err(StatsError::RangeError { start, tip }) => {
            assert_eq!(start, 5);
            assert_eq!(tip, 4);
        },
        _ => panic!("a tip below the start height must be rejected"),
    }
    assert!(validate_range(5, 5).is_ok());
}

#[test]
fn failed_batch_leaves_cache_untouched() {
    let mut cache = BlockCache::new();
    cache.insert(simple_block(100, "h100", 5, "a"));
    let mut fetched = vec![
        Ok(simple_block(101, "h101", 6, "b")),
        Err(rpc_err("getblock")),
        Ok(simple_block(103, "h103", 7, "c")),
    ];
    let result = cache.ingest_fetched(&mut fetched, 103);
    match result {
        Err(StatsError::RpcError { method, failure }) => {
            assert_eq!(method, "getblock");
            assert!(matches!(failure, RpcFailure::MissingResult));
        },
        _ => panic!("one failed height must fail the whole batch"),
    }
    // no height of the batch was merged, not even the ones that succeeded
    assert_eq!(cache.blocks.len(), 1);
    assert!(cache.contains(100));
    assert!(!cache.contains(101));
    assert!(!cache.contains(103));
    assert_eq!(cache.last_tip, None);
}

#[test]
fn successful_batch_merges_every_height_and_records_tip() {
    let mut cache = BlockCache::new();
    cache.insert(simple_block(100, "h100", 5, "a"));
    let mut fetched = vec![
        Ok(simple_block(101, "h101", 6, "b")),
        Ok(simple_block(102, "h102", 7, "c")),
    ];
    assert!(cache.ingest_fetched(&mut fetched, 102).is_ok());
    assert!(cache.contains(100));
    assert!(cache.contains(101));
    assert!(cache.contains(102));
    assert_eq!(cache.get(102).unwrap().hash, "h102");
    assert_eq!(cache.last_tip, Some(102));
}

#[test]
fn empty_batch_still_records_tip() {
    let mut cache = BlockCache::new();
    let mut fetched: Vec<Result<CachedBlock, StatsError>> = vec![];
    assert!(cache.ingest_fetched(&mut fetched, 55).is_ok());
    assert!(cache.blocks.is_empty());
    assert_eq!(cache.last_tip, Some(55));
}

#[test]
fn refresh_tip_reports_whether_anything_changed() {
    let mut cache = BlockCache::new();
    assert!(cache.refresh_tip(9));
    assert_eq!(cache.last_tip, Some(9));
    assert!(!cache.refresh_tip(9));
    assert!(cache.refresh_tip(10));
    assert_eq!(cache.last_tip, Some(10));
}
