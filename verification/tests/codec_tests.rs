use miner_stats::block::CachedBlock;
use miner_stats::block::CoinbaseOutput;
use miner_stats::cache::BlockCache;
use miner_stats::error::RpcFailure;
use miner_stats::error::StatsError;
use miner_stats::rpc::interpret_envelope;
use miner_stats::rpc::RpcBlock;
use miner_stats::rpc::RpcTx;
use miner_stats::rpc::RpcVout;

fn sample_cache() -> BlockCache {
    BlockCache {
        last_tip: Some(1_000_000),
        blocks: vec![
            CachedBlock {
                height: 999_998,
                hash: String::from("00abcdef"),
                outputs: vec![
                    CoinbaseOutput {
                        value_zat: 625_000_000,
                        addresses: vec![String::from("t1abc"), String::from("t1def")],
                    },
                    CoinbaseOutput { value_zat: -5, addresses: vec![] },
                ],
            },
            CachedBlock { height: 1_000_000, hash: String::new(), outputs: vec![] },
        ],
    }
}

fn assert_same_cache(a: &BlockCache, b: &BlockCache) {
    assert_eq!(a.last_tip, b.last_tip);
    assert_eq!(a.blocks.len(), b.blocks.len());
    for (x, y) in a.blocks.iter().zip(b.blocks.iter()) {
        assert_eq!(x.height, y.height);
        assert_eq!(x.hash, y.hash);
        assert_eq!(x.outputs.len(), y.outputs.len());
        for (ox, oy) in x.outputs.iter().zip(y.outputs.iter()) {
            assert_eq!(ox.value_zat, oy.value_zat);
            assert_eq!(ox.addresses, oy.addresses);
        }
    }
}

#[test]
fn cache_round_trips_through_the_document() {
    let cache = sample_cache();
    let text = cache.encode();
    let back = BlockCache::decode(&text).unwrap();
    assert_same_cache(&cache, &back);
}

#[test]
fn empty_cache_round_trips() {
    let cache = BlockCache::new();
    let text = cache.encode();
    let back = BlockCache::decode(&text).unwrap();
    assert_eq!(back.last_tip, None);
    assert!(back.blocks.is_empty());
}

#[test]
fn empty_document_is_corrupt() {
    let text: Vec<char> = vec![];
    assert!(matches!(BlockCache::decode(&text), Err(StatsError::CacheCorrupt)));
}

#[test]
fn unknown_tag_is_corrupt() {
    let text: Vec<char> = "x0000000000000000".chars().collect();
    assert!(matches!(BlockCache::decode(&text), Err(StatsError::CacheCorrupt)));
}

#[test]
fn truncated_document_is_corrupt() {
    let cache = sample_cache();
    let mut text = cache.encode();
    text.pop();
    assert!(matches!(BlockCache::decode(&text), Err(StatsError::CacheCorrupt)));
}

#[test]
fn trailing_content_is_corrupt() {
    let cache = sample_cache();
    let mut text = cache.encode();
    text.push('0');
    assert!(matches!(BlockCache::decode(&text), Err(StatsError::CacheCorrupt)));
}

#[test]
fn repeated_height_is_corrupt() {
    let twice = BlockCache {
        last_tip: None,
        blocks: vec![
            CachedBlock { height: 7, hash: String::from("a"), outputs: vec![] },
            CachedBlock { height: 7, hash: String::from("b"), outputs: vec![] },
        ],
    };
    let text = twice.encode();
    assert!(matches!(BlockCache::decode(&text), Err(StatsError::CacheCorrupt)));
}

#[test]
fn envelope_result_is_handed_back() {
    let r: Result<u32, StatsError> = interpret_envelope("getblockcount", Some(812), None);
    assert_eq!(r.unwrap(), 812);
}

#[test]
fn envelope_error_object_wins() {
    let r: Result<u32, StatsError> =
        interpret_envelope("getblockhash", Some(1), Some((-8, String::from("out of range"))));
    match r {
        Err(StatsError::RpcError { method, failure }) => {
            assert_eq!(method, "getblockhash");
            match failure {
                RpcFailure::ErrorObject { code, message } => {
                    assert_eq!(code, -8);
                    assert_eq!(message, "out of range");
                },
                _ => panic!("the error object must be kept"),
            }
        },
        _ => panic!("an error envelope must fail the call"),
    }
}

#[test]
fn envelope_missing_result_is_an_error() {
    let r: Result<u32, StatsError> = interpret_envelope("getblock", None, None);
    match r {
        Err(StatsError::RpcError { method, failure }) => {
            assert_eq!(method, "getblock");
            assert!(matches!(failure, RpcFailure::MissingResult));
        },
        _ => panic!("a missing result must fail the call"),
    }
}

#[test]
fn coinbase_outputs_come_from_the_first_transaction() {
    let block = RpcBlock {
        hash: String::from("deadbeef"),
        height: 5,
        tx: vec![
            RpcTx {
                vout: vec![
                    RpcVout { value_zat: 100, addresses: Some(vec![String::from("a")]) },
                    RpcVout { value_zat: 23, addresses: None },
                ],
            },
            RpcTx { vout: vec![RpcVout { value_zat: 999, addresses: None }] },
        ],
    };
    let outputs = block.coinbase_outputs();
    assert_eq!(outputs.len(), 2);
    assert_eq!(outputs[0].value_zat, 100);
    assert_eq!(outputs[0].addresses, vec![String::from("a")]);
    assert_eq!(outputs[1].value_zat, 23);
    assert!(outputs[1].addresses.is_empty());
}

#[test]
fn block_without_transactions_has_no_coinbase_outputs() {
    let block = RpcBlock { hash: String::from("h"), height: 5, tx: vec![] };
    assert!(block.coinbase_outputs().is_empty());
}

#[test]
fn assembled_block_keeps_height_and_hash() {
    let rpc = RpcBlock {
        hash: String::from("feed"),
        height: 9,
        tx: vec![RpcTx { vout: vec![RpcVout { value_zat: 1, addresses: None }] }],
    };
    let b = miner_stats::rpc::block_from_rpc(9, String::from("feed"), &rpc);
    assert_eq!(b.height, 9);
    assert_eq!(b.hash, "feed");
    assert_eq!(b.outputs.len(), 1);
}

#[test]
fn shorten_key_keeps_short_keys_and_trims_long_ones() {
    assert_eq!(miner_stats::error::shorten_key("short"), "short");
    assert_eq!(miner_stats::error::shorten_key("0123456789abcdef"), "0123456789abcdef");
    assert_eq!(
        miner_stats::error::shorten_key("uview1abcdefghijklmnopqrstuvwxyz"),
        "uview1ab…stuvwxyz"
    );
}
