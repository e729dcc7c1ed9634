use shell_node::chain::{Block, ChainStore, Header, SignedTransaction, StoreOp};
use shell_node::dev::{parse_snapshot_id, DevState, MAX_DEV_SNAPSHOTS};
use shell_node::error::NodeError;
use shell_node::node::{Node, NodeConfig, StoredState};
use shell_node::primitives::{Address, ShellHash};
use shell_node::prover::L2StarkMode;
use shell_node::pruning::PruningConfig;
use shell_node::table::Table;

fn hash_at(number: u64) -> ShellHash {
    ShellHash::from([0xD0 + number as u8; 32])
}

fn tx(nonce: u64) -> SignedTransaction {
    SignedTransaction {
        hash: ShellHash::from([nonce as u8 + 1; 32]),
        sender: Address::from([1u8; 32]),
        nonce,
        gas_limit: 21_000,
        signature_len: 3_309,
    }
}

fn root() -> ShellHash {
    ShellHash::from([0x0F; 32])
}

fn mine(chain: &mut ChainStore, number: u64, transactions: Vec<SignedTransaction>) {
    let block = Block {
        hash: hash_at(number),
        header: Header {
            number,
            parent_hash: ShellHash::zero(),
            state_root: root(),
            timestamp: 1_000 + number,
            gas_used: 0,
        },
        transactions,
        sig_entries: 0,
    };
    chain.apply(StoreOp::SetCanonical(number, block.hash));
    chain.apply(StoreOp::SetHead(block.hash));
    chain.put_block(block);
}

fn genesis_chain() -> ChainStore {
    let mut chain = ChainStore::new(root());
    mine(&mut chain, 0, vec![]);
    chain
}

fn head_number(chain: &ChainStore) -> u64 {
    chain.get_head_block().unwrap().number()
}

fn snapshot(dev: &mut DevState, chain: &ChainStore) -> Result<String, NodeError> {
    dev.snapshot_inner(chain, 0, 0, vec![])
}

fn revert(dev: &mut DevState, chain: &mut ChainStore, id: &str) -> bool {
    dev.revert_inner(chain, id).unwrap().is_some()
}

#[test]
fn dev_rpc_time_controls_affect_next_block() {
    let mut dev = DevState::new();
    let genesis_time = 1_000;
    let next_ts = genesis_time + 10;
    dev.set_next_block_timestamp(next_ts);
    let block1 = dev.current_block_timestamp(5, genesis_time);
    assert_eq!(block1, next_ts);

    dev.set_next_block_timestamp(block1 + 30);
    let block2 = dev.current_block_timestamp(5, block1);
    assert_eq!(block2, block1 + 30);

    assert_eq!(
        dev.current_block_timestamp(5, block2),
        block2 + 1,
        "a time that was set counts once, and no block is older than its parent"
    );
    assert_eq!(dev.current_block_timestamp(9_000, block2), 9_000);
    assert_eq!(dev.current_block_timestamp(0, u64::MAX), u64::MAX);
}

#[test]
fn dev_rpc_snapshot_and_revert_restore_head() {
    let mut chain = genesis_chain();
    let mut dev = DevState::new();
    mine(&mut chain, 1, vec![]);
    let snapshot_id = snapshot(&mut dev, &chain).unwrap();
    mine(&mut chain, 2, vec![]);
    mine(&mut chain, 3, vec![]);
    assert_eq!(head_number(&chain), 3);

    assert!(revert(&mut dev, &mut chain, &snapshot_id));

    assert_eq!(head_number(&chain), 1);
    assert_eq!(chain.get_block_hash_by_number(2), None);
    assert_eq!(chain.get_block_hash_by_number(3), None);
    assert!(!revert(&mut dev, &mut chain, "0xdeadbeef"));
}

#[test]
fn dev_rpc_snapshot_restores_same_sender_nonce_chain() {
    let mut chain = genesis_chain();
    let mut dev = DevState::new();
    let id = dev
        .snapshot_inner(&chain, 0, 0, vec![tx(0), tx(1)])
        .unwrap();
    let reverted = dev.revert_inner(&mut chain, &id).unwrap().unwrap();
    let hashes: Vec<ShellHash> = reverted.pending_txs.iter().map(|tx| tx.hash).collect();
    assert_eq!(hashes, vec![tx(0).hash, tx(1).hash]);
}

#[test]
fn dev_rpc_snapshot_limit_bounds_retained_state() {
    let chain = genesis_chain();
    let mut dev = DevState::new();
    for _ in 0..MAX_DEV_SNAPSHOTS {
        snapshot(&mut dev, &chain).unwrap();
    }

    let err = snapshot(&mut dev, &chain).unwrap_err().message();
    assert!(err.contains("dev snapshot limit reached"));
}

#[test]
fn dev_rpc_revert_consumes_snapshot_and_newer_ids() {
    let mut chain = genesis_chain();
    let mut dev = DevState::new();
    let snapshot_1 = snapshot(&mut dev, &chain).unwrap();
    mine(&mut chain, 1, vec![]);
    let snapshot_2 = snapshot(&mut dev, &chain).unwrap();
    mine(&mut chain, 2, vec![]);

    assert!(revert(&mut dev, &mut chain, &snapshot_2));
    assert_eq!(head_number(&chain), 1);
    assert!(!revert(&mut dev, &mut chain, &snapshot_2));

    assert!(revert(&mut dev, &mut chain, &snapshot_1));
    assert_eq!(head_number(&chain), 0);
    assert!(!revert(&mut dev, &mut chain, &snapshot_1));
}

#[test]
fn reverting_to_an_older_snapshot_uses_up_newer_ones() {
    let mut chain = genesis_chain();
    let mut dev = DevState::new();
    let first = snapshot(&mut dev, &chain).unwrap();
    let second = snapshot(&mut dev, &chain).unwrap();
    assert_eq!((first.as_str(), second.as_str()), ("0x1", "0x2"));
    assert!(revert(&mut dev, &mut chain, &first));
    assert!(!revert(&mut dev, &mut chain, &second));
    assert_eq!(
        snapshot(&mut dev, &chain).unwrap(),
        "0x3",
        "ids are not handed out again"
    );
}

#[test]
fn revert_brings_back_counters_finality_and_indexes() {
    let mut chain = genesis_chain();
    let mut dev = DevState::new();
    mine(&mut chain, 1, vec![tx(0)]);
    chain.apply(StoreOp::SetFinalized(1));
    dev.set_next_block_timestamp(77);
    let id = dev.snapshot_inner(&chain, 1, 21_000, vec![]).unwrap();
    dev.set_next_block_timestamp(88);
    mine(&mut chain, 2, vec![tx(1)]);
    chain.apply(StoreOp::SetFinalized(2));
    assert!(chain.get_tx_location(&tx(1).hash).is_some());

    let reverted = dev.revert_inner(&mut chain, &id).unwrap().unwrap();

    assert_eq!(reverted.finalized_number, 1);
    assert_eq!(reverted.finalized_hash, hash_at(1));
    assert_eq!(chain.get_finalized_number(), Some(1));
    let totals = chain.get_chain_totals().unwrap();
    assert_eq!((totals.head, totals.transactions, totals.gas_used), (1, 1, 21_000));
    assert!(chain.get_tx_location(&tx(1).hash).is_none());
    assert!(chain.get_tx_location(&tx(0).hash).is_some());
    assert_eq!(chain.world_root(), root());
    assert_eq!(dev.current_block_timestamp(0, 0), 77);
}

fn dev_node(chain: ChainStore) -> Node {
    Node::new(
        NodeConfig {
            chain_id: 1337,
            proposer_address: None,
            pruning: PruningConfig::default(),
            enable_stark_aggregation: false,
            l2_stark_mode: L2StarkMode::Disabled,
            max_peers: 0,
        },
        chain,
        StoredState::empty(),
        Table::new(),
        256,
    )
}

#[test]
fn revert_takes_finality_back_to_the_snapshot() {
    let mut chain = genesis_chain();
    mine(&mut chain, 1, vec![]);
    chain.apply(StoreOp::SetFinalized(1));
    let mut node = dev_node(chain);
    assert_eq!(node.finality.last_finalized_number(), 1);
    let id = node
        .dev_state
        .snapshot_inner(&node.chain_store, 0, 0, vec![tx(0)])
        .unwrap();

    mine(&mut node.chain_store, 2, vec![]);
    node.finish_attestation(2, hash_at(2), Ok(())).unwrap();
    let voter = Address::from([1u8; 32]);
    assert!(node
        .finality
        .record_attestation_weighted(hash_at(3), 3, voter, 1));
    assert_eq!(node.finality.last_finalized_hash(), hash_at(2));

    assert!(node.revert("0xdeadbeef").unwrap().is_none());
    assert_eq!(node.finality.last_finalized_number(), 2);

    let reverted = node.revert(&id).unwrap().unwrap();
    assert_eq!(reverted.pending_txs.len(), 1);
    assert_eq!(node.finality.last_finalized_number(), 1);
    assert_eq!(node.finality.last_finalized_hash(), hash_at(1));
    assert_eq!(node.finality.attestation_count(&hash_at(3)), 0);
    assert_eq!(head_number(&node.chain_store), 1);
    assert!(node.revert(&id).unwrap().is_none());
}

#[test]
fn revert_to_a_snapshot_without_finality_forgets_it() {
    let mut node = dev_node(genesis_chain());
    let id = node
        .dev_state
        .snapshot_inner(&node.chain_store, 0, 0, vec![])
        .unwrap();
    mine(&mut node.chain_store, 1, vec![]);
    node.finish_attestation(1, hash_at(1), Ok(())).unwrap();
    assert!(node.revert(&id).unwrap().is_some());
    assert_eq!(node.finality.last_finalized_number(), 0);
    assert_eq!(node.finality.last_finalized_hash(), ShellHash::zero());
}

#[test]
fn snapshots_need_a_head_and_its_state() {
    let mut empty = ChainStore::new(root());
    let mut dev = DevState::new();
    assert_eq!(snapshot(&mut dev, &empty), Err(NodeError::NoGenesis));
    mine(&mut empty, 0, vec![]);
    let id = snapshot(&mut dev, &empty).unwrap();
    empty.remove_state(&root());
    assert_eq!(
        dev.revert_inner(&mut empty, &id).unwrap_err(),
        NodeError::StateUnavailable { root: root() }
    );
}

#[test]
fn snapshot_ids_are_hexadecimal() {
    assert_eq!(parse_snapshot_id("0x1f"), Some(31));
    assert_eq!(parse_snapshot_id("0xffffffffffffffff"), Some(u64::MAX));
    assert_eq!(parse_snapshot_id("0x10000000000000000"), None);
    assert_eq!(parse_snapshot_id("zz"), None);
}
