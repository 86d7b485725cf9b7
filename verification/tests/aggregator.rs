//! The trace-tree aggregator: boundary handling, indexing and
//! emission.

use zkscan_etl::etl::EtlResult;
use zkscan_etl::frames::CallFrame;
use zkscan_etl::ids::Address;
use zkscan_etl::ids::Hash32;
use zkscan_etl::ids::Sig;
use zkscan_etl::trace::Trace;
use zkscan_etl::tree::TraceTree;

fn addr(last: u8) -> Address {
    let mut bytes = vec![0u8; 19];
    bytes.push(last);
    Address::from_bytes(bytes).unwrap()
}

fn hash(last: u8) -> Hash32 {
    let mut bytes = vec![0u8; 31];
    bytes.push(last);
    Hash32::from_bytes(bytes).unwrap()
}

fn base_trace() -> Trace {
    Trace {
        transaction_index: Some(0),
        from_address: None,
        to_address: None,
        value: None,
        input: None,
        output: None,
        trace_type: None,
        call_type: None,
        reward_type: None,
        gas: None,
        gas_used: None,
        subtraces: 0,
        trace_address: Vec::new(),
        error: None,
        transaction_hash: Some(hash(0xaa)),
        block_number: 7,
        block_timestamp: None,
        block_hash: None,
    }
}

fn root(from: u8, to: u8) -> Trace {
    let mut t = base_trace();
    t.from_address = Some(addr(from));
    t.to_address = Some(addr(to));
    t.gas = Some(90_000);
    t.gas_used = Some(60_000);
    t
}

fn child(from: u8, to: u8, path: Vec<u32>) -> Trace {
    let mut t = base_trace();
    t.from_address = Some(addr(from));
    t.to_address = Some(addr(to));
    t.trace_address = path;
    t
}

const EC_RECOVER: u8 = 1;
const EC_PAIRING: u8 = 8;

#[test]
fn trigger_present_one_degree() {
    let mut tree = TraceTree::new(1);
    assert!(tree.on_trace(&root(0xE0, 0x0A)).is_none());
    let mut call = child(0x0A, EC_PAIRING, vec![0]);
    call.input = Some(vec![0u8; 32]);
    call.gas_used = Some(500);
    assert!(tree.on_trace(&call).is_none());

    let results = tree.commit().expect("trigger present, must emit");
    assert_eq!(results.len(), 2);
    match &results[0] {
        EtlResult::Contract(c) => {
            assert!(c.address.eq_addr(&addr(0x0A)));
            assert_eq!(c.degree, 0);
            assert_eq!(c.ec_pairing_count, 1);
            assert_eq!(c.ec_recover_count, 0);
            assert_eq!(c.ec_pairing_input_sizes, vec![32]);
            assert_eq!(c.call.len(), 1);
            assert!(c.call.contains(&addr(EC_PAIRING)));
            assert_eq!(c.chain_id, 1);
        },
        _ => panic!("first record must be the contract"),
    }
    match &results[1] {
        EtlResult::Transaction(tx) => {
            assert!(tx.from_address.eq_addr(&addr(0xE0)));
            assert!(tx.to_address.eq_addr(&addr(0x0A)));
            assert_eq!(tx.closest_address.len(), 1);
            assert!(tx.closest_address.contains(&addr(0x0A)));
            assert_eq!(tx.ec_pairing_count, 1);
            assert_eq!(tx.ec_recover_count, 0);
            assert_eq!(tx.gas_used.requested, 90_000);
            assert_eq!(tx.gas_used.total, 60_000);
            assert_eq!(tx.gas_used.first_degree, 500);
            assert_eq!(tx.ec_pairing_input_sizes, vec![32]);
            assert_eq!(tx.block_number, 7);
        },
        _ => panic!("last record must be the transaction"),
    }
}

#[test]
fn two_degrees_and_recovered_address() {
    let mut tree = TraceTree::new(5);
    assert!(tree.on_trace(&root(0xE0, 0x0A)).is_none());
    tree.on_trace(&child(0x0A, 0x0B, vec![0]));
    let mut rec = child(0x0B, EC_RECOVER, vec![0, 0]);
    let mut out = vec![0u8; 12];
    out.extend_from_slice(&[0xDE, 0xAD, 0xBE, 0xEF].repeat(5));
    rec.output = Some(out.clone());
    tree.on_trace(&rec);

    let results = tree.commit().expect("trigger present, must emit");
    assert_eq!(results.len(), 3);
    let mut degree0 = None;
    let mut degree1 = None;
    for r in &results[..2] {
        match r {
            EtlResult::Contract(c) => {
                if c.degree == 0 {
                    degree0 = Some(c);
                } else {
                    degree1 = Some(c);
                }
            },
            _ => panic!("contracts must come first"),
        }
    }
    let c0 = degree0.expect("0x0B at degree 0");
    assert!(c0.address.eq_addr(&addr(0x0B)));
    assert!(c0.call.contains(&addr(EC_RECOVER)));
    let c1 = degree1.expect("0x0A at degree 1");
    assert!(c1.address.eq_addr(&addr(0x0A)));
    assert!(c1.call.contains(&addr(0x0B)));
    match &results[2] {
        EtlResult::Transaction(tx) => {
            assert_eq!(tx.closest_address.len(), 1);
            assert!(tx.closest_address.contains(&addr(0x0A)));
            assert_eq!(tx.ec_recover_addresses.len(), 1);
            let recovered = Address::from_bytes(out[12..32].to_vec()).unwrap();
            assert!(tx.ec_recover_addresses.contains(&recovered));
        },
        _ => panic!("last record must be the transaction"),
    }
}

#[test]
fn no_trigger_emits_nothing() {
    let mut tree = TraceTree::new(1);
    tree.on_trace(&root(0xE0, 0x0A));
    tree.on_trace(&child(0x0A, 0x0B, vec![0]));
    assert!(tree.commit().is_none());
    // the next root resets the state and reports the empty commit
    assert!(tree.on_trace(&root(0xE0, 0x0C)).is_none());
    assert!(!tree.commit_filter());
}

#[test]
fn signature_zeroed_for_trigger_callee() {
    let input = vec![0x11, 0x22, 0x33, 0x44, 0x55];
    let sig = TraceTree::construct_signature_with_to((&input, &addr(EC_PAIRING)));
    assert!(sig.eq_sig(&Sig::zero()));
    // a plain callee keeps its selector
    let sig2 = TraceTree::construct_signature_with_to((&input, &addr(0x0A)));
    assert_eq!(sig2.bytes(), &vec![0x11, 0x22, 0x33, 0x44]);
}

#[test]
fn four_byte_input_has_zero_signature() {
    let input = vec![0x11, 0x22, 0x33, 0x44];
    let sig = TraceTree::construct_signature(&input);
    assert!(sig.eq_sig(&Sig::zero()));
    let longer = vec![0x11, 0x22, 0x33, 0x44, 0x55];
    assert_eq!(TraceTree::construct_signature(&longer).bytes(), &vec![0x11, 0x22, 0x33, 0x44]);
}

#[test]
fn incomplete_root_emits_nothing() {
    let mut tree = TraceTree::new(1);
    let mut r = root(0xE0, 0x0A);
    r.transaction_hash = None;
    tree.on_trace(&r);
    let mut call = child(0x0A, EC_PAIRING, vec![0]);
    call.input = Some(vec![0u8; 5]);
    tree.on_trace(&call);
    assert!(tree.commit_filter());
    assert!(tree.commit().is_none());
}

#[test]
fn trace_missing_endpoint_is_skipped() {
    let mut tree = TraceTree::new(1);
    tree.on_trace(&root(0xE0, 0x0A));
    let mut half = child(0x0B, EC_PAIRING, vec![0]);
    half.to_address = None;
    tree.on_trace(&half);
    assert!(!tree.commit_filter());
    assert!(tree.commit().is_none());
}

#[test]
fn eoa_never_second_degree() {
    // the EOA calls 0xA, 0xA calls the trigger, and the EOA also calls
    // the first-degree caller again deeper in the tree
    let mut tree = TraceTree::new(1);
    tree.on_trace(&root(0xE0, 0x0A));
    let mut call = child(0x0A, EC_PAIRING, vec![0]);
    call.input = Some(vec![0u8; 64]);
    tree.on_trace(&call);
    tree.on_trace(&child(0xE0, 0x0A, vec![1]));
    let results = tree.commit().expect("must emit");
    for r in &results {
        if let EtlResult::Contract(c) = r {
            if c.degree == 1 {
                assert!(!c.address.eq_addr(&addr(0xE0)));
            }
        }
    }
}

#[test]
fn flatten_preorder_paths() {
    let leaf = |from: u8, to: u8| CallFrame {
        from: addr(from),
        to: Some(addr(to)),
        value: None,
        gas: 10,
        gas_used: 5,
        input: vec![],
        output: None,
        error: None,
        typ: "STATICCALL".to_string(),
        calls: vec![],
    };
    let mut mid = leaf(0x0A, 0x0B);
    mid.calls = vec![leaf(0x0B, 0x0C), leaf(0x0B, 0x0D)];
    let mut root_frame = leaf(0xE0, 0x0A);
    root_frame.typ = "CALL".to_string();
    root_frame.calls = vec![mid, leaf(0x0A, 0x0E)];

    let rows = root_frame.flatten_frame();
    assert_eq!(rows.len(), 5);
    let paths: Vec<Vec<u32>> = rows.iter().map(|r| r.trace_address.clone()).collect();
    assert_eq!(
        paths,
        vec![vec![], vec![0], vec![0, 0], vec![0, 1], vec![1]]
    );
    assert_eq!(rows[0].subtraces, 2);
    assert_eq!(rows[1].subtraces, 2);
    assert_eq!(rows[2].subtraces, 0);
    assert!(rows[4].to.as_ref().unwrap().eq_addr(&addr(0x0E)));

    // conversion keeps the frame and lower-cases the tracer's kind
    let t = rows[0].into_trace(3, &hash(0x44), 12);
    assert_eq!(t.call_type.as_deref(), Some("call"));
    assert_eq!(t.trace_type.as_deref(), Some("call"));
    assert_eq!(t.transaction_index, Some(3));
    assert_eq!(t.block_number, 12);
    assert!(t.trace_address.is_empty());
    let t1 = rows[1].into_trace(3, &hash(0x44), 12);
    assert_eq!(t1.call_type.as_deref(), Some("staticcall"));
    assert_eq!(t1.trace_address, vec![0]);
}
