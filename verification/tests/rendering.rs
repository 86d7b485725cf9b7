//! Exact SQL tuples, cache keys and statement assembly.

use zkscan_etl::etl::Block;
use zkscan_etl::etl::BlockWithChainId;
use zkscan_etl::etl::Contract;
use zkscan_etl::etl::EtlResult;
use zkscan_etl::etl::GasUsed;
use zkscan_etl::etl::Transaction;
use zkscan_etl::ids::Address;
use zkscan_etl::ids::Hash32;
use zkscan_etl::ids::Hash8;
use zkscan_etl::ids::Sig;
use zkscan_etl::registry::InsertTree;
use zkscan_etl::registry::BLOCK_PREFIX;
use zkscan_etl::registry::BLOCK_SUFFIX;
use zkscan_etl::registry::CONTRACT_PREFIX;
use zkscan_etl::registry::CONTRACT_SUFFIX;
use zkscan_etl::sets::AddrSet;
use zkscan_etl::sets::SigSet;

fn digit_address() -> Address {
    // an address whose hex holds only decimal digits keeps its
    // lower-case rendering under the EIP-55 checksum
    Address::from_bytes([0x12, 0x34, 0x56, 0x78, 0x90].repeat(4)).unwrap()
}

fn precompile(n: u8) -> Address {
    let mut bytes = vec![0u8; 19];
    bytes.push(n);
    Address::from_bytes(bytes).unwrap()
}

#[test]
fn checksummed_cache_key() {
    // the EIP-55 reference vector
    let bytes = vec![
        0xd8, 0xda, 0x6b, 0xf2, 0x69, 0x64, 0xaf, 0x9d, 0x7e, 0xed, 0x9e, 0x03, 0xe5, 0x34,
        0x15, 0xd3, 0x7a, 0xa9, 0x60, 0x45,
    ];
    let mut sigs = SigSet::new();
    sigs.insert(&Sig::from_front(&vec![0x12, 0x34, 0x56, 0x78]));
    let c = Contract {
        chain_id: 1,
        address: Address::from_bytes(bytes).unwrap(),
        function_signatures: sigs,
        degree: 0,
        ec_recover_count: 0,
        ec_add_count: 0,
        ec_mul_count: 0,
        ec_pairing_count: 0,
        ec_pairing_input_sizes: Vec::new(),
        call: AddrSet::new(),
    };
    assert_eq!(
        c.cache_key(),
        "c:1:0xd8dA6BF26964aF9D7eEd9e03E53415D37aA96045:0x12345678"
    );
}

#[test]
fn contract_value_tuple() {
    let mut sigs = SigSet::new();
    sigs.insert(&Sig::from_front(&vec![0xde, 0xad, 0xbe, 0xef]));
    let mut call = AddrSet::new();
    call.insert(&precompile(8));
    let c = Contract {
        chain_id: 2,
        address: digit_address(),
        function_signatures: sigs,
        degree: 0,
        ec_recover_count: 1,
        ec_add_count: 2,
        ec_mul_count: 3,
        ec_pairing_count: 4,
        ec_pairing_input_sizes: vec![32, 64],
        call,
    };
    assert_eq!(
        c.value(),
        "(2,'0x1234567890123456789012345678901234567890','{\"0xdeadbeef\"}',0,1,2,3,4,'{32,64}','{\"0x0000000000000000000000000000000000000008\"}')"
    );
}

fn sample_block() -> BlockWithChainId {
    BlockWithChainId {
        chain_id: 1,
        block: Block {
            number: 100,
            timestamp: 1_700_000_000,
            hash: Hash32::from_bytes(vec![0x11; 32]).unwrap(),
            parent_hash: Hash32::from_bytes(vec![0x22; 32]).unwrap(),
            transaction_count: 5,
            nonce: Hash8::from_bytes(vec![0x00; 8]).unwrap(),
            miner: digit_address(),
            difficulty: 0,
            total_difficulty: 0,
            size: 111,
            gas_limit: 8_000_000,
            gas_used: 21_000,
            base_fee_per_gas: 100,
        },
    }
}

#[test]
fn block_value_tuple() {
    let b = sample_block();
    let expected = format!(
        "(1,100,1700000000,'0x{}','0x{}',5,'0x0000000000000000','0x1234567890123456789012345678901234567890',0,0,111,8000000,21000,100)",
        "11".repeat(32),
        "22".repeat(32)
    );
    assert_eq!(b.value(), expected);
}

#[test]
fn transaction_value_tuple() {
    let tx = Transaction {
        chain_id: 1,
        from_address: digit_address(),
        to_address: precompile(1),
        closest_address: AddrSet::new(),
        function_signature: Sig::zero(),
        transaction_hash: Hash32::from_bytes(vec![0x33; 32]).unwrap(),
        transaction_index: 9,
        block_number: 100,
        block_timestamp: None,
        block_hash: None,
        value: 12345,
        input: Vec::new(),
        gas_used: GasUsed { requested: 90, total: 60, first_degree: 10, second_degree: 20 },
        ec_recover_count: 1,
        ec_add_count: 0,
        ec_mul_count: 0,
        ec_pairing_count: 0,
        ec_pairing_input_sizes: Vec::new(),
        ec_recover_addresses: AddrSet::new(),
        error: None,
    };
    let expected = format!(
        "(1,'0x1234567890123456789012345678901234567890','0x0000000000000000000000000000000000000001','{{}}','0x00000000','0x{}',9,100,NULL,NULL,12345,'0x',90,60,10,20,1,0,0,0,'{{}}','{{}}',NULL)",
        "33".repeat(32)
    );
    assert_eq!(tx.value(), expected);
}

#[test]
fn block_last_wins_in_batch() {
    let first = sample_block();
    let mut second = sample_block();
    second.block.size = 222;
    let mut tree = InsertTree::new();
    tree.insert(&EtlResult::BlockWithChainId(first));
    tree.insert(&EtlResult::BlockWithChainId(second));
    let stmts = tree.statements();
    assert_eq!(stmts.len(), 1);
    let expected_tuple = {
        let mut b = sample_block();
        b.block.size = 222;
        b.value()
    };
    let expected = format!("{}{}{}", BLOCK_PREFIX, expected_tuple, BLOCK_SUFFIX);
    assert_eq!(stmts[0], expected);
    assert!(stmts[0].contains("ON CONFLICT (chain_id, number) DO UPDATE SET"));
    assert!(!stmts[0].contains(",111,"));
}

#[test]
fn distinct_blocks_both_kept() {
    let mut second = sample_block();
    second.block.number = 101;
    second.block.size = 222;
    let mut tree = InsertTree::new();
    tree.insert(&EtlResult::BlockWithChainId(sample_block()));
    tree.insert(&EtlResult::BlockWithChainId(second));
    let stmts = tree.statements();
    assert_eq!(stmts.len(), 1);
    assert!(stmts[0].contains(&sample_block().value()));
}

#[test]
fn contract_statement_has_conflict_clause() {
    let mut tree = InsertTree::new();
    let c = Contract {
        chain_id: 2,
        address: digit_address(),
        function_signatures: SigSet::new(),
        degree: 1,
        ec_recover_count: 0,
        ec_add_count: 0,
        ec_mul_count: 0,
        ec_pairing_count: 0,
        ec_pairing_input_sizes: Vec::new(),
        call: AddrSet::new(),
    };
    let tuple = c.value();
    tree.insert(&EtlResult::Contract(c));
    let stmts = tree.statements();
    assert_eq!(stmts.len(), 1);
    let expected = format!("{}{}{}", CONTRACT_PREFIX, tuple, CONTRACT_SUFFIX);
    assert_eq!(stmts[0], expected);
    assert!(stmts[0].ends_with("ON CONFLICT (chain_id, address, function_signatures) DO NOTHING"));
}
