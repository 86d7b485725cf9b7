//! The persistence worker's batching and offset gating, the cache
//! suppression plan, the stats watcher, and the chain configuration.

use zkscan_etl::config::Chain;
use zkscan_etl::config::KafkaChainConfig;
use zkscan_etl::config::ProviderChainConfig;
use zkscan_etl::etl::Block;
use zkscan_etl::etl::BlockWithChainId;
use zkscan_etl::etl::Contract;
use zkscan_etl::etl::EtlResult;
use zkscan_etl::ids::Address;
use zkscan_etl::ids::Hash32;
use zkscan_etl::ids::Hash8;
use zkscan_etl::plan::cache_keys;
use zkscan_etl::plan::plan_inserts;
use zkscan_etl::sets::AddrSet;
use zkscan_etl::sets::SigSet;
use zkscan_etl::stats::Stats;
use zkscan_etl::worker::Commiter;
use zkscan_etl::worker::PersistWorker;
use zkscan_etl::worker::TopicCommiter;

fn digit_address(seed: u8) -> Address {
    let mut bytes = vec![0x12, 0x34, 0x56, 0x78, 0x90].repeat(4);
    bytes[19] = seed % 10;
    Address::from_bytes(bytes).unwrap()
}

fn contract(seed: u8) -> Contract {
    Contract {
        chain_id: 1,
        address: digit_address(seed),
        function_signatures: SigSet::new(),
        degree: 0,
        ec_recover_count: 0,
        ec_add_count: 0,
        ec_mul_count: 0,
        ec_pairing_count: 0,
        ec_pairing_input_sizes: Vec::new(),
        call: AddrSet::new(),
    }
}

fn block(chain: u64, number: u64) -> BlockWithChainId {
    BlockWithChainId {
        chain_id: chain,
        block: Block {
            number,
            timestamp: 0,
            hash: Hash32::from_bytes(vec![0x11; 32]).unwrap(),
            parent_hash: Hash32::from_bytes(vec![0x22; 32]).unwrap(),
            transaction_count: 0,
            nonce: Hash8::from_bytes(vec![0x00; 8]).unwrap(),
            miner: digit_address(0),
            difficulty: 0,
            total_difficulty: 0,
            size: 0,
            gas_limit: 0,
            gas_used: 0,
            base_fee_per_gas: 0,
        },
    }
}

fn token(topic: &str, offset: i64) -> TopicCommiter {
    TopicCommiter { chain_id: 1, topic_id: topic.to_string(), partition: 0, offset }
}

#[test]
fn offset_gating() {
    let mut w = PersistWorker::new(0);
    let batch = vec![EtlResult::BlockWithChainId(block(1, 1))];
    // the first cycle stores the traces token; nothing to commit yet
    let write = w.on_received(batch, false);
    assert!(write.is_some());
    assert!(w.on_write_ok(Commiter::Kafka(token("traces", 1000)), 100).is_none());

    // a blocks token 200 ms later: no commit, too soon and too close
    let write = w.on_received(vec![EtlResult::BlockWithChainId(block(1, 2))], false);
    assert!(write.is_some());
    assert!(w.on_write_ok(Commiter::Kafka(token("blocks", 1050)), 300).is_none());

    // rebuild the same situation, now far enough ahead and late enough
    let mut w = PersistWorker::new(0);
    let _ = w.on_received(vec![EtlResult::BlockWithChainId(block(1, 1))], false);
    assert!(w.on_write_ok(Commiter::Kafka(token("traces", 1000)), 100).is_none());
    let _ = w.on_received(vec![EtlResult::BlockWithChainId(block(1, 2))], false);
    let req = w
        .on_write_ok(Commiter::Kafka(token("blocks", 1101)), 2_100)
        .expect("gate must open");
    // the commit fires on the previously stored traces token
    assert_eq!(req.topic_id, "traces");
    assert_eq!(req.offset, 999);
}

#[test]
fn same_topic_never_commits() {
    let mut w = PersistWorker::new(0);
    let _ = w.on_received(vec![EtlResult::BlockWithChainId(block(1, 1))], false);
    assert!(w.on_write_ok(Commiter::Kafka(token("traces", 1000)), 100).is_none());
    let _ = w.on_received(vec![EtlResult::BlockWithChainId(block(1, 2))], false);
    assert!(w.on_write_ok(Commiter::Kafka(token("traces", 99_999)), 99_999).is_none());
}

#[test]
fn batching_waits_for_drain() {
    let mut w = PersistWorker::new(0);
    // pending messages and a small buffer: keep batching
    assert!(w.on_received(vec![EtlResult::BlockWithChainId(block(1, 1))], true).is_none());
    // drained bus: flush everything accumulated
    let write = w.on_received(vec![EtlResult::BlockWithChainId(block(1, 2))], false);
    let batch = write.expect("drained bus must flush");
    assert_eq!(batch.len(), 2);
}

#[test]
fn suppression_follows_cache_presence() {
    let results = vec![
        EtlResult::Contract(contract(1)),
        EtlResult::BlockWithChainId(block(1, 5)),
        EtlResult::Contract(contract(2)),
    ];
    let keys = cache_keys(&results);
    assert_eq!(keys.len(), 2);
    assert_eq!(keys[0], contract(1).cache_key());
    assert_eq!(keys[1], contract(2).cache_key());

    // the first contract's key was present: only the second is written
    let plan = plan_inserts(&results, &vec![true, false]);
    assert_eq!(plan.keys_to_set.len(), 1);
    assert_eq!(plan.keys_to_set[0], contract(2).cache_key());
    let stmts = plan.tree.statements();
    assert_eq!(stmts.len(), 2);
    assert!(stmts[0].contains(&contract(2).value()));
    assert!(!stmts[0].contains(&contract(1).value()));
    assert!(stmts[1].contains("INSERT INTO blocks"));

    // nothing cached: both contracts are written
    let plan = plan_inserts(&results, &vec![false, false]);
    assert_eq!(plan.keys_to_set.len(), 2);
    let stmts = plan.tree.statements();
    assert!(stmts[0].contains(&contract(1).value()));
    assert!(stmts[0].contains(&contract(2).value()));
}

#[test]
fn stats_track_latest_values() {
    let mut stats = Stats::new();
    stats.apply(
        &vec![
            EtlResult::BlockWithChainId(block(1, 100)),
            EtlResult::BlockWithChainId(block(1, 101)),
            EtlResult::BlockWithChainId(block(2, 7)),
        ],
        &Commiter::Kafka(token("traces", 42)),
    );
    let lines = stats.read();
    assert!(lines.iter().any(|(k, v)| k == "latest_block_1" && *v == 101));
    assert!(lines.iter().any(|(k, v)| k == "latest_block_2" && *v == 7));
    assert!(lines.iter().any(|(k, v)| k == "traces" && *v == 42));
    // a later message moves the counters forward
    stats.apply(
        &vec![EtlResult::BlockWithChainId(block(1, 102))],
        &Commiter::Noop,
    );
    let lines = stats.read();
    assert!(lines.iter().any(|(k, v)| k == "latest_block_1" && *v == 102));
    assert!(!lines.iter().any(|(k, v)| k == "latest_block_1" && *v == 101));
}

#[test]
fn chain_id_of_either_variant() {
    let provider = Chain::Provider(ProviderChainConfig {
        id: 1,
        rpc_url: "http://localhost:8545".to_string(),
        ws_url: "ws://localhost:8546".to_string(),
        index_block: true,
        index_tx: true,
    });
    let queue = Chain::Kafka(KafkaChainConfig {
        id: 2,
        traces_topic: Some("traces".to_string()),
        blocks_topic: Some("blocks".to_string()),
    });
    assert_eq!(provider.chain_id(), 1);
    assert_eq!(queue.chain_id(), 2);
}

#[test]
fn etl_result_chain_id() {
    assert_eq!(EtlResult::BlockWithChainId(block(9, 1)).chain_id(), 9);
    assert_eq!(EtlResult::Contract(contract(1)).chain_id(), 1);
}

#[test]
fn decimal_value_round_trip() {
    let mut s = String::new();
    zkscan_etl::text::push_dec_u128(&mut s, 340_282_366_920_938_463_463_374_607_431_768_211_455);
    assert_eq!(s, "340282366920938463463374607431768211455");
    let digits: Vec<char> = s.chars().collect();
    assert_eq!(
        zkscan_etl::text::parse_dec_u128(&digits),
        Some(u128::MAX)
    );

    let mut small = String::new();
    zkscan_etl::text::push_dec_u128(&mut small, 0);
    assert_eq!(small, "0");
    assert_eq!(zkscan_etl::text::parse_dec_u128(&vec!['0']), Some(0));

    // rejected inputs: empty, a stray letter, one past the bound
    assert_eq!(zkscan_etl::text::parse_dec_u128(&Vec::new()), None);
    assert_eq!(zkscan_etl::text::parse_dec_u128(&vec!['1', 'x', '4']), None);
    let over: Vec<char> = "340282366920938463463374607431768211456".chars().collect();
    assert_eq!(zkscan_etl::text::parse_dec_u128(&over), None);
}
