use shell_node::chain::{Block, ChainStore, ChainTotals, Header, SignedTransaction, StoreOp};
use shell_node::error::NodeError;
use shell_node::primitives::{Address, ShellHash};
use shell_node::reorg::ReorgEngine;

fn make_hash(n: u8) -> ShellHash {
    let mut bytes = [0u8; 32];
    bytes[0] = n;
    ShellHash::from(bytes)
}

/// A digest good enough to tell test blocks apart.
fn digest(parts: &[&[u8]]) -> ShellHash {
    let mut bytes = [0u8; 32];
    for lane in 0..4u64 {
        let mut state: u64 = 0xcbf2_9ce4_8422_2325 ^ lane;
        for part in parts {
            for b in part.iter() {
                state = (state ^ u64::from(*b)).wrapping_mul(0x0000_0100_0000_01b3);
            }
        }
        let at = (lane * 8) as usize;
        bytes[at..at + 8].copy_from_slice(&state.to_be_bytes());
    }
    ShellHash::from(bytes)
}

fn seal(block: &mut Block) {
    let h = block.header;
    block.hash = digest(&[
        &h.number.to_be_bytes(),
        &h.parent_hash.bytes,
        &h.state_root.bytes,
        &h.timestamp.to_be_bytes(),
        &h.gas_used.to_be_bytes(),
    ]);
}

fn make_block(number: u64, parent_hash: ShellHash, state_root: ShellHash) -> Block {
    let mut block = Block {
        hash: ShellHash::zero(),
        header: Header {
            number,
            parent_hash,
            state_root,
            timestamp: 1_000_000 + number,
            gas_used: 0,
        },
        transactions: vec![],
        sig_entries: 0,
    };
    seal(&mut block);
    block
}

/// A block like another one, but of a later time.
fn make_later_block(
    number: u64,
    parent_hash: ShellHash,
    state_root: ShellHash,
    delay: u64,
) -> Block {
    let mut block = make_block(number, parent_hash, state_root);
    block.header.timestamp += delay;
    seal(&mut block);
    block
}

fn setup_chain() -> (ChainStore, ShellHash) {
    let root = digest(&[b"empty state"]);
    (ChainStore::new(root), root)
}

fn make_tx(nonce: u64) -> SignedTransaction {
    SignedTransaction {
        hash: digest(&[b"tx", &nonce.to_be_bytes()]),
        sender: Address::from([7u8; 32]),
        nonce,
        gas_limit: 21_000,
        signature_len: 3,
    }
}

fn put(chain: &mut ChainStore, block: &Block) -> ShellHash {
    chain.put_block(block.duplicate());
    block.hash
}

fn set_canonical(chain: &mut ChainStore, number: u64, hash: ShellHash) {
    chain.apply(StoreOp::SetCanonical(number, hash));
}

fn set_head(chain: &mut ChainStore, hash: ShellHash) {
    chain.apply(StoreOp::SetHead(hash));
}

fn canonical_hash(chain: &ChainStore, number: u64) -> Option<ShellHash> {
    chain.get_block_by_number(number).map(|b| b.hash)
}

#[test]
fn test_reorg_past_finalized_rejected() {
    let (mut chain, _root) = setup_chain();
    let result = ReorgEngine::execute(&mut chain, make_hash(0), 5, &[], &[], 10);
    assert!(result.is_err());
    let err = result.unwrap_err().message();
    assert!(err.contains("cannot reorg past finalized"));
}

#[test]
fn test_reorg_from_non_canonical_finalized_ancestor_rejected() {
    let (mut chain, root) = setup_chain();
    let finalized = make_block(5, make_hash(0), root);
    let finalized_hash = put(&mut chain, &finalized);
    set_canonical(&mut chain, 5, finalized_hash);

    let fork_ancestor = make_block(5, make_hash(9), root);
    let result = ReorgEngine::execute(&mut chain, fork_ancestor.hash, 5, &[], &[], 5);

    let err = result.unwrap_err().message();
    assert!(err.contains("non-canonical ancestor at finalized block 5"));
    assert_eq!(chain.get_block_hash_by_number(5), Some(finalized_hash));
}

#[test]
fn test_reorg_from_finalized_height_requires_canonical_mapping() {
    let (mut chain, root) = setup_chain();
    let ancestor = make_block(5, make_hash(0), root);
    let ancestor_hash = put(&mut chain, &ancestor);

    let result = ReorgEngine::execute(&mut chain, ancestor_hash, 5, &[], &[], 5);

    let err = result.unwrap_err().message();
    assert!(err.contains("canonical mapping is missing"));
}

#[test]
fn test_empty_reorg() {
    let (mut chain, root) = setup_chain();
    let ancestor_hash = put(&mut chain, &make_block(5, make_hash(0), root));

    let result = ReorgEngine::execute(&mut chain, ancestor_hash, 5, &[], &[], 0).unwrap();

    assert_eq!(result.rolled_back, 0);
    assert_eq!(result.applied, 0);
    assert_eq!(result.reverted_txs.len(), 0);
    assert_eq!(result.new_head, ancestor_hash);
}

#[test]
fn test_reorg_collects_reverted_txs() {
    let (mut chain, root) = setup_chain();
    let ancestor_hash = put(&mut chain, &make_block(5, make_hash(0), root));

    let mut old_block = make_block(6, ancestor_hash, root);
    old_block.transactions.push(make_tx(0));
    let old_hash = put(&mut chain, &old_block);

    let result = ReorgEngine::execute(&mut chain, ancestor_hash, 5, &[old_hash], &[], 0).unwrap();

    assert_eq!(result.rolled_back, 1);
    assert_eq!(result.reverted_txs.len(), 1);
    assert_eq!(result.reverted_txs[0].hash, make_tx(0).hash);
}

#[test]
fn test_reorg_applies_new_chain() {
    let (mut chain, root) = setup_chain();
    let ancestor_hash = put(&mut chain, &make_block(5, make_hash(0), root));
    let new_hash_6 = put(&mut chain, &make_block(6, ancestor_hash, root));
    let new_hash_7 = put(&mut chain, &make_block(7, new_hash_6, root));

    let result = ReorgEngine::execute(
        &mut chain,
        ancestor_hash,
        5,
        &[],
        &[new_hash_6, new_hash_7],
        0,
    )
    .unwrap();

    assert_eq!(result.applied, 2);
    assert_eq!(result.new_head, new_hash_7);
}

#[test]
fn test_reorg_rejects_new_chain_height_gap_before_mutation() {
    let (mut chain, root) = setup_chain();
    let ancestor_hash = put(&mut chain, &make_block(5, make_hash(0), root));
    let old_hash = put(&mut chain, &make_block(6, ancestor_hash, root));
    set_canonical(&mut chain, 6, old_hash);
    set_head(&mut chain, old_hash);
    let bad_hash = put(&mut chain, &make_block(7, ancestor_hash, root));

    let err = ReorgEngine::execute(&mut chain, ancestor_hash, 5, &[old_hash], &[bad_hash], 0)
        .unwrap_err()
        .message();

    assert!(err.contains("new_chain height continuity broken"));
    assert_eq!(canonical_hash(&chain, 6), Some(old_hash));
    assert_eq!(chain.get_head_hash(), Some(old_hash));
}

#[test]
fn test_reorg_rejects_missing_tip_state_before_mutation() {
    let (mut chain, root) = setup_chain();
    let ancestor_hash = put(&mut chain, &make_block(5, make_hash(0), root));
    let old_hash = put(&mut chain, &make_block(6, ancestor_hash, root));
    set_canonical(&mut chain, 6, old_hash);
    set_head(&mut chain, old_hash);
    let new_hash = put(&mut chain, &make_block(6, ancestor_hash, make_hash(99)));

    let err = ReorgEngine::execute(&mut chain, ancestor_hash, 5, &[old_hash], &[new_hash], 0)
        .unwrap_err();

    assert_eq!(err, NodeError::StateUnavailable { root: make_hash(99) });
    assert_eq!(canonical_hash(&chain, 6), Some(old_hash));
    assert_eq!(chain.get_head_hash(), Some(old_hash));
}

#[test]
fn test_reorg_rejects_old_chain_parent_gap_before_mutation() {
    let (mut chain, root) = setup_chain();
    let ancestor_hash = put(&mut chain, &make_block(5, make_hash(0), root));
    let bad_old_hash = put(&mut chain, &make_block(6, make_hash(99), root));
    set_canonical(&mut chain, 6, bad_old_hash);
    set_head(&mut chain, bad_old_hash);
    let new_hash = put(&mut chain, &make_block(6, ancestor_hash, root));

    let err = ReorgEngine::execute(
        &mut chain,
        ancestor_hash,
        5,
        &[bad_old_hash],
        &[new_hash],
        0,
    )
    .unwrap_err()
    .message();

    assert!(err.contains("old_chain parent continuity broken"));
    assert_eq!(canonical_hash(&chain, 6), Some(bad_old_hash));
    assert_eq!(chain.get_head_hash(), Some(bad_old_hash));
}

#[test]
fn test_reorg_filters_duplicate_txs() {
    let (mut chain, root) = setup_chain();
    let ancestor_hash = put(&mut chain, &make_block(5, make_hash(0), root));
    let tx = make_tx(0);

    let mut old_block = make_block(6, ancestor_hash, root);
    old_block.transactions.push(tx);
    let old_hash = put(&mut chain, &old_block);

    let mut new_block = make_later_block(6, ancestor_hash, root, 1);
    new_block.transactions.push(tx);
    let new_hash = put(&mut chain, &new_block);

    let result =
        ReorgEngine::execute(&mut chain, ancestor_hash, 5, &[old_hash], &[new_hash], 0).unwrap();

    assert_eq!(result.reverted_txs.len(), 0);
}

#[test]
fn test_short_reorg_one_block() {
    let (mut chain, root) = setup_chain();
    let ancestor_hash = put(&mut chain, &make_block(5, make_hash(0), root));
    let old_hash = put(&mut chain, &make_block(6, ancestor_hash, root));
    set_canonical(&mut chain, 6, old_hash);
    set_head(&mut chain, old_hash);
    let fork_hash = put(&mut chain, &make_later_block(6, ancestor_hash, root, 100));

    let result =
        ReorgEngine::execute(&mut chain, ancestor_hash, 5, &[old_hash], &[fork_hash], 0).unwrap();

    assert_eq!(result.rolled_back, 1);
    assert_eq!(result.applied, 1);
    assert_eq!(result.new_head, fork_hash);
    assert_eq!(chain.get_head_hash(), Some(fork_hash));
}

#[test]
fn test_medium_reorg_three_blocks() {
    let (mut chain, root) = setup_chain();
    let ancestor_hash = put(&mut chain, &make_block(5, make_hash(0), root));

    let oh6 = put(&mut chain, &make_block(6, ancestor_hash, root));
    let oh7 = put(&mut chain, &make_block(7, oh6, root));
    let oh8 = put(&mut chain, &make_block(8, oh7, root));
    set_head(&mut chain, oh8);

    let nh6 = put(&mut chain, &make_later_block(6, ancestor_hash, root, 50));
    let nh7 = put(&mut chain, &make_later_block(7, nh6, root, 50));
    let nh8 = put(&mut chain, &make_later_block(8, nh7, root, 50));

    let result = ReorgEngine::execute(
        &mut chain,
        ancestor_hash,
        5,
        &[oh6, oh7, oh8],
        &[nh6, nh7, nh8],
        0,
    )
    .unwrap();

    assert_eq!(result.rolled_back, 3);
    assert_eq!(result.applied, 3);
    assert_eq!(result.ancestor_number, 5);
    assert_eq!(result.new_head, nh8);
    assert_eq!(canonical_hash(&chain, 6), Some(nh6));
    assert_eq!(canonical_hash(&chain, 7), Some(nh7));
}

#[test]
fn test_reorg_blocked_by_finalized() {
    let (mut chain, root) = setup_chain();
    let ancestor_hash = put(&mut chain, &make_block(3, make_hash(0), root));

    let result = ReorgEngine::execute(&mut chain, ancestor_hash, 3, &[], &[], 5);

    assert!(result.is_err());
    let err_msg = result.unwrap_err().message();
    assert!(
        err_msg.contains("cannot reorg past finalized"),
        "expected finalization safety error, got: {err_msg}"
    );
}

#[test]
fn test_reorg_preserves_unique_reverted_txs() {
    let (mut chain, root) = setup_chain();
    let ancestor_hash = put(&mut chain, &make_block(5, make_hash(0), root));

    let mut old6 = make_block(6, ancestor_hash, root);
    old6.transactions.push(make_tx(0));
    let oh6 = put(&mut chain, &old6);
    let mut old7 = make_block(7, oh6, root);
    old7.transactions.push(make_tx(99));
    let oh7 = put(&mut chain, &old7);
    let nh6 = put(&mut chain, &make_later_block(6, ancestor_hash, root, 1));

    let result =
        ReorgEngine::execute(&mut chain, ancestor_hash, 5, &[oh6, oh7], &[nh6], 0).unwrap();

    assert_eq!(result.reverted_txs.len(), 2);
    assert_eq!(result.reverted_txs[0].hash, make_tx(99).hash);
    assert_eq!(result.reverted_txs[1].hash, make_tx(0).hash);
}

#[test]
fn test_reorg_updates_canonical_mappings() {
    let (mut chain, root) = setup_chain();
    let ancestor_hash = put(&mut chain, &make_block(5, make_hash(0), root));
    let old_hash = put(&mut chain, &make_block(6, ancestor_hash, root));
    set_canonical(&mut chain, 6, old_hash);
    let new_hash = put(&mut chain, &make_later_block(6, ancestor_hash, root, 42));

    let result =
        ReorgEngine::execute(&mut chain, ancestor_hash, 5, &[old_hash], &[new_hash], 0).unwrap();

    assert_eq!(result.new_head, new_hash);
    assert_eq!(canonical_hash(&chain, 6), Some(new_hash));
}

#[test]
fn test_reorg_replaces_canonical_transaction_indexes() {
    let (mut chain, root) = setup_chain();
    let ancestor_hash = put(&mut chain, &make_block(5, make_hash(0), root));

    let tx = make_tx(0);
    let mut old6 = make_block(6, ancestor_hash, root);
    old6.transactions.push(tx);
    let old_hash = put(&mut chain, &old6);
    set_canonical(&mut chain, 6, old_hash);
    set_head(&mut chain, old_hash);
    assert_eq!(chain.get_tx_location(&tx.hash), Some((old_hash, 0)));

    let new6 = make_later_block(6, ancestor_hash, root, 42);
    let new_hash = new6.hash;
    chain.put_side_fork_block(new6);

    ReorgEngine::execute(&mut chain, ancestor_hash, 5, &[old_hash], &[new_hash], 0).unwrap();

    assert!(chain.get_tx_location(&tx.hash).is_none());
}

#[test]
fn test_reorg_refreshes_chain_totals_for_same_height_fork() {
    let (mut chain, root) = setup_chain();
    let ancestor_hash = put(&mut chain, &make_block(0, make_hash(0), root));
    set_canonical(&mut chain, 0, ancestor_hash);

    let mut old1 = make_block(1, ancestor_hash, root);
    old1.header.gas_used = 21_000;
    seal(&mut old1);
    old1.transactions.push(make_tx(0));
    let old_hash = put(&mut chain, &old1);
    set_canonical(&mut chain, 1, old_hash);
    set_head(&mut chain, old_hash);
    chain.apply(StoreOp::SetTotals(ChainTotals {
        head: 1,
        transactions: 1,
        gas_used: 21_000,
    }));

    let mut new1 = make_later_block(1, ancestor_hash, root, 1);
    new1.header.gas_used = 42_000;
    seal(&mut new1);
    new1.transactions.push(make_tx(0));
    new1.transactions.push(make_tx(1));
    let new_hash = new1.hash;
    chain.put_side_fork_block(new1);

    ReorgEngine::execute(&mut chain, ancestor_hash, 0, &[old_hash], &[new_hash], 0).unwrap();

    let totals = chain.get_chain_totals().unwrap();
    assert_eq!(totals.transactions, 2);
    assert_eq!(totals.gas_used, 42_000);
    assert_eq!(totals.head, 1);
}

#[test]
fn test_reorg_cleans_stale_canonical_mappings() {
    let (mut chain, root) = setup_chain();
    let ancestor_hash = put(&mut chain, &make_block(5, make_hash(0), root));

    let oh6 = put(&mut chain, &make_block(6, ancestor_hash, root));
    set_canonical(&mut chain, 6, oh6);
    let oh7 = put(&mut chain, &make_block(7, oh6, root));
    set_canonical(&mut chain, 7, oh7);
    let oh8 = put(&mut chain, &make_block(8, oh7, root));
    set_canonical(&mut chain, 8, oh8);
    set_head(&mut chain, oh8);

    let nh6 = put(&mut chain, &make_later_block(6, ancestor_hash, root, 100));

    let result =
        ReorgEngine::execute(&mut chain, ancestor_hash, 5, &[oh6, oh7, oh8], &[nh6], 0).unwrap();

    assert_eq!(result.rolled_back, 3);
    assert_eq!(result.applied, 1);
    assert_eq!(canonical_hash(&chain, 6), Some(nh6));
    assert!(
        canonical_hash(&chain, 7).is_none(),
        "stale canonical mapping at height 7 should be removed"
    );
    assert!(
        canonical_hash(&chain, 8).is_none(),
        "stale canonical mapping at height 8 should be removed"
    );
}

#[test]
fn reorg_moves_the_world_state_to_the_new_tip() {
    let (mut chain, root) = setup_chain();
    let other = make_hash(42);
    chain.add_state(other);
    let ancestor_hash = put(&mut chain, &make_block(5, make_hash(0), root));
    let new_hash = put(&mut chain, &make_block(6, ancestor_hash, other));

    ReorgEngine::execute(&mut chain, ancestor_hash, 5, &[], &[new_hash], 0).unwrap();

    assert_eq!(chain.world_root(), other);
}

#[test]
fn reorg_and_back_restores_the_canonical_chain() {
    let (mut chain, root) = setup_chain();
    let ancestor_hash = put(&mut chain, &make_block(5, make_hash(0), root));
    set_canonical(&mut chain, 5, ancestor_hash);
    let oh6 = put(&mut chain, &make_block(6, ancestor_hash, root));
    set_canonical(&mut chain, 6, oh6);
    let nh6 = put(&mut chain, &make_later_block(6, ancestor_hash, root, 9));
    let nh7 = put(&mut chain, &make_later_block(7, nh6, root, 9));

    ReorgEngine::execute(&mut chain, ancestor_hash, 5, &[oh6], &[nh6, nh7], 5).unwrap();
    assert_eq!(canonical_hash(&chain, 7), Some(nh7));
    ReorgEngine::execute(&mut chain, ancestor_hash, 5, &[nh6, nh7], &[oh6], 5).unwrap();

    assert_eq!(canonical_hash(&chain, 5), Some(ancestor_hash));
    assert_eq!(canonical_hash(&chain, 6), Some(oh6));
    assert_eq!(canonical_hash(&chain, 7), None);
}

#[test]
fn reorg_names_the_missing_block_or_ancestor() {
    let (mut chain, root) = setup_chain();
    let ancestor_hash = put(&mut chain, &make_block(5, make_hash(0), root));

    let err =
        ReorgEngine::execute(&mut chain, ancestor_hash, 5, &[], &[make_hash(3)], 0).unwrap_err();
    assert!(matches!(err, NodeError::SegmentBlockMissing { hash, .. } if hash == make_hash(3)));

    let err = ReorgEngine::execute(&mut chain, make_hash(8), 5, &[], &[], 0).unwrap_err();
    assert_eq!(err, NodeError::AncestorMissing { hash: make_hash(8) });
}

#[test]
fn reorg_above_the_last_height_is_refused() {
    let (mut chain, root) = setup_chain();
    let ancestor_hash = put(&mut chain, &make_block(u64::MAX, make_hash(0), root));
    let err = ReorgEngine::execute(
        &mut chain,
        ancestor_hash,
        u64::MAX,
        &[],
        &[make_hash(3)],
        0,
    )
    .unwrap_err();
    assert!(matches!(err, NodeError::SegmentHeightOverflow { .. }));
}
