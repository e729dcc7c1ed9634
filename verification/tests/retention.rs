use shell_node::chain::{Block, ChainStore, Header, StoreOp};
use shell_node::error::StorageError;
use shell_node::node::{Node, NodeConfig, StoredState};
use shell_node::primitives::{Address, ShellHash};
use shell_node::prover::L2StarkMode;
use shell_node::pruning::{PruningConfig, StateRootTracker};
use shell_node::retention::{
    body_prune_boundary, canonical_cleanup, canonical_mapping_prune_boundary,
    canonical_mapping_retention, record_canonical_state_root, retention_cutoff, state_root_status,
    state_trie_prune_boundary, witness_prune_boundary, PrunerCursors,
};
use shell_node::stark::{ProofAmendment, StarkState};
use shell_node::table::Table;

fn hash_at(number: u64) -> ShellHash {
    let mut bytes = [0xB0u8; 32];
    bytes[24..32].copy_from_slice(&number.to_be_bytes());
    ShellHash::from(bytes)
}

fn root_at(number: u64) -> ShellHash {
    let mut bytes = [0x50u8; 32];
    bytes[24..32].copy_from_slice(&number.to_be_bytes());
    ShellHash::from(bytes)
}

fn chain_of(blocks: u64) -> ChainStore {
    let mut chain = ChainStore::new(ShellHash::zero());
    for number in 0..blocks {
        let parent_hash = if number == 0 {
            ShellHash::zero()
        } else {
            hash_at(number - 1)
        };
        chain.put_block(Block {
            hash: hash_at(number),
            header: Header {
                number,
                parent_hash,
                state_root: root_at(number),
                timestamp: number,
                gas_used: 0,
            },
            transactions: vec![],
            sig_entries: 0,
        });
        chain.apply(StoreOp::SetCanonical(number, hash_at(number)));
        chain.apply(StoreOp::SetHead(hash_at(number)));
    }
    chain
}

fn retention_config(body_retention: u64, witness_retention: u64) -> PruningConfig {
    let mut config = PruningConfig::new(128);
    config.body_retention = body_retention;
    config.witness_retention = witness_retention;
    config
}

/// An amendment that settles some sources at the first layer.
fn settlement(sources: Vec<ShellHash>) -> ProofAmendment {
    ProofAmendment {
        block_hash: sources[sources.len() - 1],
        block_number: 0,
        range_start: Some(0),
        layer: 1,
        covered: sources,
        n_sigs: 512,
        batch_root: [0u8; 32],
        proof_len: 1,
        compression_valid: true,
        prover: Address::from([0u8; 32]),
        original_size: None,
        compressed_size: None,
        size_bytes: 0,
    }
}

fn settle(stark: &mut StarkState, sources: Vec<ShellHash>) {
    stark.record_settled_sources(&vec![settlement(sources)]);
}

/// Deletes the canonical mappings that a cleanup allows to delete; the one of the genesis block
/// always stays.
fn prune_mappings(chain: &mut ChainStore, below: Option<u64>) {
    for number in 1..below.unwrap_or(0) {
        chain.apply(StoreOp::DeleteCanonical(number));
    }
}

#[test]
fn canonical_mapping_retention_outlives_dependent_artifacts() {
    assert_eq!(canonical_mapping_retention(512, 256), 513);
    assert_eq!(canonical_mapping_retention(64, 256), 257);
    assert_eq!(canonical_mapping_retention(32, 32), 129);
}

#[test]
fn canonical_mapping_retention_preserves_archive_indexes() {
    assert_eq!(canonical_mapping_retention(0, 256), u64::MAX);
    assert_eq!(canonical_mapping_retention(512, 0), u64::MAX);
}

#[test]
fn canonical_mapping_pruning_waits_for_dependent_pruners() {
    assert_eq!(canonical_mapping_prune_boundary(80, 80, 0, None), 0);
    assert_eq!(canonical_mapping_prune_boundary(80, 40, 60, None), 40);
    assert_eq!(canonical_mapping_prune_boundary(80, 90, 100, None), 80);
    assert_eq!(
        canonical_mapping_prune_boundary(8_000, 8_000, 8_000, Some(1_024)),
        1_024,
        "canonical mappings must not overtake the bounded state-trie cursor"
    );

    let mut chain = chain_of(100);
    for number in 0..canonical_mapping_prune_boundary(80, 80, 0, None) {
        chain.apply(StoreOp::DeleteCanonical(number));
    }
    assert!(chain.get_block_hash_by_number(0).is_some());
}

#[test]
fn state_trie_pruning_is_bounded_by_finalized_height() {
    assert_eq!(state_trie_prune_boundary(0, 4), None);
    assert_eq!(state_trie_prune_boundary(3, 4), None);
    assert_eq!(state_trie_prune_boundary(8, 4), Some(5));

    // A high unfinalized head must not move the pruning boundary.
    let finalized = 8;
    let unfinalized_head = 100;
    assert_ne!(
        state_trie_prune_boundary(finalized, 4),
        Some(retention_cutoff(unfinalized_head, 4))
    );
}

#[test]
fn state_root_history_grows_with_blocks() {
    let mut tracker = StateRootTracker::new(PruningConfig::new(128));
    for number in 1..=5 {
        record_canonical_state_root(&mut tracker, number, root_at(number), &Ok(None), 0);
    }

    assert_eq!(tracker.len(), 5, "should track one root per produced block");
    assert_eq!(tracker.oldest().unwrap().block_number, 1);
    assert_eq!(tracker.latest().unwrap().block_number, 5);
}

#[test]
fn oldest_roots_evicted_when_exceeding_keep_recent() {
    let keep = 3u64;
    let mut tracker = StateRootTracker::new(PruningConfig::new(keep));
    for number in 1..=6 {
        record_canonical_state_root(&mut tracker, number, root_at(number), &Ok(None), 0);
    }

    assert_eq!(
        tracker.len(),
        keep as usize,
        "history should be capped at keep_recent"
    );
    assert_eq!(
        tracker.oldest().unwrap().block_number,
        4,
        "blocks 1–3 should have been evicted"
    );
    assert_eq!(tracker.latest().unwrap().block_number, 6);
}

#[test]
fn archive_mode_never_prunes() {
    let mut tracker = StateRootTracker::new(PruningConfig::new(0)); // archive
    for number in 1..=10 {
        record_canonical_state_root(&mut tracker, number, root_at(number), &Ok(None), 0);
    }

    assert_eq!(tracker.len(), 10, "archive mode keeps all roots");
    assert_eq!(tracker.oldest().unwrap().block_number, 1);
}

#[test]
fn state_root_step_takes_the_higher_finality() {
    let mut tracker = StateRootTracker::new(PruningConfig::new(4));
    for number in 1..=4 {
        let step =
            record_canonical_state_root(&mut tracker, number, root_at(number), &Ok(Some(2)), 1);
        assert_eq!(step.finalized_number, 2);
        assert!(step.evicted.is_none());
        assert!(step.prune_keep_below.is_none());
    }
    let step = record_canonical_state_root(&mut tracker, 5, root_at(5), &Ok(Some(2)), 8);
    assert_eq!(step.finalized_number, 8);
    assert_eq!(step.evicted.unwrap().block_number, 1);
    assert_eq!(step.prune_keep_below, Some(5));
    assert!(step.prune_witnesses);
    assert!(step.prune_bodies);

    let unreadable = Err(StorageError {
        detail: "finalized height".to_string(),
    });
    let step = record_canonical_state_root(&mut tracker, 6, root_at(6), &unreadable, 3);
    assert_eq!(step.finalized_number, 3);
    assert_eq!(step.prune_keep_below, None);
}

#[test]
fn body_and_witness_pruning_wait_for_finalized_height() {
    let chain = chain_of(6);
    let mut stark = StarkState::new();

    assert_eq!(body_prune_boundary(0, 0, 2), 0);
    assert_eq!(witness_prune_boundary(&chain, &stark, 0, 0, 2), 0);

    settle(&mut stark, vec![hash_at(0), hash_at(1)]);

    assert_eq!(body_prune_boundary(0, 3, 2), 2);
    assert_eq!(witness_prune_boundary(&chain, &stark, 0, 3, 2), 2);
}

#[test]
fn witness_pruning_waits_for_zero_stark_frontier() {
    let chain = chain_of(6);
    let stark = StarkState::new();

    assert_eq!(body_prune_boundary(0, 3, 2), 2);
    assert_eq!(witness_prune_boundary(&chain, &stark, 0, 3, 2), 0);
}

#[test]
fn witness_pruning_ignores_noncanonical_settled_sources() {
    let chain = chain_of(6);
    let mut stark = StarkState::new();

    // Stale entries from an orphaned fork must not advance the canonical
    // STARK frontier merely because their count matches eligible heights.
    settle(
        &mut stark,
        vec![ShellHash::from([0xA1; 32]), ShellHash::from([0xA2; 32])],
    );

    assert_eq!(body_prune_boundary(0, 3, 2), 2);
    assert_eq!(witness_prune_boundary(&chain, &stark, 0, 3, 2), 0);
}

#[test]
fn witness_pruning_stops_at_the_first_gap() {
    let mut chain = chain_of(10);
    let mut stark = StarkState::new();
    settle(&mut stark, vec![hash_at(0), hash_at(1), hash_at(3)]);
    assert_eq!(witness_prune_boundary(&chain, &stark, 0, 9, 2), 2);

    settle(&mut stark, vec![hash_at(2)]);
    assert_eq!(witness_prune_boundary(&chain, &stark, 2, 9, 2), 4);

    chain.apply(StoreOp::DeleteCanonical(3));
    assert_eq!(witness_prune_boundary(&chain, &stark, 2, 9, 2), 3);
}

#[test]
fn pruning_boundaries_never_move_back() {
    let chain = chain_of(4);
    let stark = StarkState::new();
    assert_eq!(body_prune_boundary(7, 3, 2), 7);
    assert_eq!(body_prune_boundary(7, 100, 0), 7);
    assert_eq!(witness_prune_boundary(&chain, &stark, 7, 3, 2), 7);
}

#[test]
fn canonical_mapping_pruning_waits_for_state_trie_cursor() {
    let mut chain = chain_of(41);
    let mut stark = StarkState::new();
    settle(&mut stark, (0..34).map(hash_at).collect());

    let config = retention_config(2, 2);
    let cursors = PrunerCursors {
        body_pruned_below: body_prune_boundary(0, 35, config.body_retention),
        witness_pruned_below: witness_prune_boundary(
            &chain,
            &stark,
            0,
            35,
            config.witness_retention,
        ),
        trie_pruned_below: Some(0),
    };
    assert_eq!(cursors.body_pruned_below, 34);
    assert_eq!(cursors.witness_pruned_below, 34);

    let cleanup = canonical_cleanup(&chain, &config, cursors, 35, Some(root_at(0)), true);
    prune_mappings(&mut chain, cleanup.prune_below);

    assert!(
        chain.get_block_hash_by_number(1).is_some(),
        "state-trie pruning has not advanced, so its canonical mappings remain required"
    );
}

#[test]
fn canonical_mapping_pruning_stops_when_genesis_is_unavailable() {
    let mut chain = chain_of(42);
    chain.apply(StoreOp::DeleteCanonical(0));
    let cursors = PrunerCursors {
        body_pruned_below: 34,
        witness_pruned_below: 34,
        trie_pruned_below: Some(34),
    };

    let cleanup = canonical_cleanup(&chain, &retention_config(2, 2), cursors, 35, None, true);
    assert_eq!(cleanup.register_genesis, None);
    assert_eq!(cleanup.prune_below, None);
    prune_mappings(&mut chain, cleanup.prune_below);
    assert!(chain.get_block_hash_by_number(1).is_some());
}

#[test]
fn canonical_mapping_pruning_revalidates_registered_genesis() {
    let mut chain = chain_of(42);
    let cursors = PrunerCursors {
        body_pruned_below: 34,
        witness_pruned_below: 34,
        trie_pruned_below: Some(34),
    };
    chain.apply(StoreOp::DeleteCanonical(0));

    let config = retention_config(2, 2);
    let cleanup = canonical_cleanup(&chain, &config, cursors, 35, Some(root_at(0)), true);
    assert_eq!(cleanup.prune_below, None);
    prune_mappings(&mut chain, cleanup.prune_below);
    assert!(chain.get_block_hash_by_number(1).is_some());
}

#[test]
fn canonical_mapping_pruning_uses_pruned_genesis_header() {
    let mut chain = chain_of(42);
    chain.prune_body(&hash_at(0));
    let cursors = PrunerCursors {
        body_pruned_below: 34,
        witness_pruned_below: 34,
        trie_pruned_below: Some(0),
    };

    let cleanup = canonical_cleanup(&chain, &retention_config(2, 2), cursors, 35, None, true);
    assert_eq!(cleanup.register_genesis, Some(root_at(0)));
    prune_mappings(&mut chain, cleanup.prune_below);

    assert!(chain.get_block_hash_by_number(0).is_some());
    assert!(chain.get_block_hash_by_number(1).is_some());
}

#[test]
fn canonical_mapping_pruning_follows_the_slowest_pruner() {
    let chain = chain_of(42);
    let cursors = PrunerCursors {
        body_pruned_below: 34,
        witness_pruned_below: 20,
        trie_pruned_below: Some(30),
    };
    let config = retention_config(2, 2);
    let cleanup = canonical_cleanup(&chain, &config, cursors, 35, Some(root_at(0)), true);
    assert_eq!(cleanup.prune_below, Some(20));

    let unreadable = PrunerCursors {
        trie_pruned_below: None,
        ..cursors
    };
    let cleanup = canonical_cleanup(&chain, &config, unreadable, 35, Some(root_at(0)), true);
    assert_eq!(cleanup.prune_below, Some(0));

    let not_due = canonical_cleanup(&chain, &config, cursors, 35, Some(root_at(0)), false);
    assert_eq!(not_due.prune_below, None);
    let not_final = canonical_cleanup(&chain, &config, cursors, 0, Some(root_at(0)), true);
    assert_eq!(not_final.prune_below, None);
    let changed = canonical_cleanup(&chain, &config, cursors, 35, Some(root_at(9)), true);
    assert_eq!(changed.prune_below, None);
}

#[test]
fn state_root_status_is_reported_every_64_blocks() {
    let mut tracker = StateRootTracker::new(PruningConfig::new(2));
    assert_eq!(state_root_status(&tracker, 0), None);
    assert_eq!(state_root_status(&tracker, 63), None);
    let empty = state_root_status(&tracker, 64).unwrap();
    assert_eq!((empty.entries, empty.oldest_block, empty.archive), (0, 0, false));
    tracker.record(127, root_at(127));
    tracker.record(128, root_at(128));
    let status = state_root_status(&tracker, 128).unwrap();
    assert_eq!((status.entries, status.oldest_block), (2, 127));
}

#[test]
fn banner_shows_the_retention_policies() {
    let node = |pruning: PruningConfig, stark: bool| {
        Node::new(
            NodeConfig {
                chain_id: 1337,
                proposer_address: None,
                pruning,
                enable_stark_aggregation: stark,
                l2_stark_mode: L2StarkMode::Disabled,
                max_peers: 0,
            },
            ChainStore::new(ShellHash::zero()),
            StoredState::empty(),
            Table::new(),
            256,
        )
    };
    let mut config = PruningConfig::new(128);
    config.body_retention = 64;
    config.witness_retention = 32;
    let lines = node(config, true).log_pruning_banner();
    assert_eq!(lines.len(), 3);
    assert!(lines[0].starts_with("╔═══ Shell Chain — Storage Policy"));
    assert!(lines[1].contains("state=keep-128 (pruned)  bodies=keep-64  witnesses=keep-32"));
    assert!(lines[2].contains("witnesses replaced immediately after proof commit"));

    let mut archive = PruningConfig::default();
    archive.body_retention = 0;
    archive.witness_retention = 0;
    let lines = node(archive, false).log_pruning_banner();
    assert_eq!(lines.len(), 3);
    assert!(lines[1].contains("state=archive  bodies=archive  witnesses=archive"));
    assert!(lines[2].contains("STARK: disabled"));
}

#[test]
fn node_settings_follow_from_the_config() {
    let node = Node::new(
        NodeConfig {
            chain_id: 1337,
            proposer_address: None,
            pruning: retention_config(64, 256),
            enable_stark_aggregation: false,
            l2_stark_mode: L2StarkMode::Disabled,
            max_peers: 12,
        },
        ChainStore::new(ShellHash::zero()),
        StoredState::empty(),
        Table::new(),
        256,
    );
    assert_eq!(node.mapping_retention, 257);
    assert_eq!(node.peer_capability_limit, 12);
    assert_eq!(node.oldest_available_body_block(), 0);
}

#[test]
fn oldest_available_body_block_skips_pruned_bodies() {
    let mut chain = chain_of(5);
    assert_eq!(chain.oldest_canonical_body_number(), Some(0));
    chain.prune_body(&hash_at(0));
    chain.prune_body(&hash_at(1));
    chain.prune_body(&hash_at(3));
    assert_eq!(chain.oldest_canonical_body_number(), Some(2));
}
