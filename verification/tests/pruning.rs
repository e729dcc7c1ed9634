use shell_node::chain::{Block, ChainStore, Header, StoreOp};
use shell_node::error::NodeError;
use shell_node::primitives::ShellHash;
use shell_node::pruning::{
    PruningConfig, StateRootTracker, StorageProfile, ARCHIVE_MAX_TRACKED, DEFAULT_WITNESS_RETENTION,
};
use shell_node::trie::{prune_state_trie, StateTriePruneResult, TrieStore};

fn dummy_root(n: u8) -> ShellHash {
    ShellHash::from([n; 32])
}

fn make_block(number: u64, parent_hash: ShellHash, state_root: ShellHash) -> Block {
    Block {
        hash: ShellHash::from([0x80 + number as u8; 32]),
        header: Header {
            number,
            parent_hash,
            state_root,
            timestamp: 1_000_000 + number,
            gas_used: 0,
        },
        transactions: vec![],
        sig_entries: 0,
    }
}

/// Three blocks, each with a state of its own: a root node and a leaf for one account. The last two
/// states also share a node.
fn populate_state_chain() -> (ChainStore, TrieStore, Vec<ShellHash>, Vec<ShellHash>) {
    let mut chain = ChainStore::new(ShellHash::zero());
    let mut trie = TrieStore::new();
    let mut roots = Vec::new();
    let mut leaves = Vec::new();
    let shared = dummy_root(0x40);
    let mut parent_hash = ShellHash::zero();
    for number in 0..3u8 {
        let root = dummy_root(number + 1);
        let leaf = dummy_root(number + 0x11);
        let mut nodes = vec![root, leaf];
        if number > 0 {
            nodes.push(shared);
        }
        trie.add_snapshot(root, nodes);
        chain.add_state(root);
        let block = make_block(u64::from(number), parent_hash, root);
        parent_hash = block.hash;
        chain.apply(StoreOp::SetCanonical(u64::from(number), block.hash));
        chain.apply(StoreOp::SetHead(block.hash));
        chain.put_block(block);
        roots.push(root);
        leaves.push(leaf);
    }
    (chain, trie, roots, leaves)
}

#[test]
fn archive_mode_never_evicts() {
    let mut tracker = StateRootTracker::new(PruningConfig::new(0));
    for i in 0..200u8 {
        let evicted = tracker.record(i as u64, dummy_root(i));
        assert!(evicted.is_none(), "archive mode must not evict");
    }
    assert_eq!(tracker.len(), 200);
}

#[test]
fn evicts_oldest_when_exceeding_keep_recent() {
    let mut tracker = StateRootTracker::new(PruningConfig::new(3));

    assert!(tracker.record(1, dummy_root(1)).is_none());
    assert!(tracker.record(2, dummy_root(2)).is_none());
    assert!(tracker.record(3, dummy_root(3)).is_none());
    assert_eq!(tracker.len(), 3);

    // 4th entry should evict block 1.
    let evicted = tracker.record(4, dummy_root(4));
    assert!(evicted.is_some());
    let e = evicted.unwrap();
    assert_eq!(e.block_number, 1);
    assert_eq!(e.state_root, dummy_root(1));
    assert_eq!(tracker.len(), 3);

    // Oldest is now block 2.
    assert_eq!(tracker.oldest().unwrap().block_number, 2);
}

#[test]
fn history_grows_within_limit() {
    let mut tracker = StateRootTracker::new(PruningConfig::new(5));
    for i in 1..=5 {
        assert!(tracker.record(i, dummy_root(i as u8)).is_none());
    }
    assert_eq!(tracker.len(), 5);
    assert_eq!(tracker.oldest().unwrap().block_number, 1);
    assert_eq!(tracker.latest().unwrap().block_number, 5);
}

#[test]
fn keep_recent_one() {
    let mut tracker = StateRootTracker::new(PruningConfig::new(1));
    assert!(tracker.record(1, dummy_root(1)).is_none());
    let evicted = tracker.record(2, dummy_root(2)).unwrap();
    assert_eq!(evicted.block_number, 1);
    assert_eq!(tracker.len(), 1);
    assert_eq!(tracker.latest().unwrap().block_number, 2);
}

#[test]
fn archive_history_is_capped() {
    let mut tracker = StateRootTracker::new(PruningConfig::new(0));
    assert!(tracker.is_empty());
    for i in 0..ARCHIVE_MAX_TRACKED as u64 {
        assert!(tracker.record(i, dummy_root(1)).is_none());
    }
    let evicted = tracker.record(ARCHIVE_MAX_TRACKED as u64, dummy_root(2)).unwrap();
    assert_eq!(evicted.block_number, 0);
    assert_eq!(tracker.len(), 10_000);
    assert_eq!(tracker.history().len(), 10_000);
    assert_eq!(tracker.config().keep_recent, 0);
}

#[test]
fn default_config_is_archive() {
    let cfg = PruningConfig::default();
    assert!(cfg.is_archive());
    assert_eq!(cfg.keep_recent, 0);
}

#[test]
fn default_config_keeps_recent_bodies_and_witnesses() {
    let cfg = PruningConfig::default();
    assert_eq!(cfg.witness_retention, 128);
    assert_eq!(cfg.body_retention, 512);
    assert_eq!(cfg.proof_replacement_grace, 0);
    assert!(!cfg.state_pruning_experimental);
    assert_eq!(cfg, PruningConfig::new(0));
}

#[test]
fn storage_profile_from_str_roundtrip() {
    for (input, expected) in &[
        ("archive", StorageProfile::Archive),
        ("ARCHIVE", StorageProfile::Archive),
        ("full", StorageProfile::Full),
        ("Full", StorageProfile::Full),
        ("light", StorageProfile::Light),
        ("LIGHT", StorageProfile::Light),
    ] {
        assert_eq!(
            StorageProfile::from_str(input).unwrap(),
            *expected,
            "input: {input}"
        );
    }
    assert!(StorageProfile::from_str("unknown").is_err());
}

#[test]
fn storage_profile_parses_through_the_standard_trait() {
    let profile: StorageProfile = "Pruned".parse().unwrap();
    assert_eq!(profile, StorageProfile::Light);
    assert!("".parse::<StorageProfile>().is_err());
}

#[test]
fn storage_profile_names_parse_back() {
    for profile in [
        StorageProfile::Archive,
        StorageProfile::Full,
        StorageProfile::Light,
    ] {
        assert_eq!(StorageProfile::from_str(profile.as_str()), Ok(profile));
        assert_eq!(
            StorageProfile::from_str(profile.whitepaper_name()),
            Ok(profile)
        );
    }
}

#[test]
fn storage_profile_defaults_archive() {
    let (body, witness, keep, grace) = StorageProfile::Archive.pruning_defaults();
    assert_eq!(body, 0, "archive: body_retention must be 0");
    assert_eq!(witness, 0, "archive: witness_retention must be 0");
    assert_eq!(keep, 0, "archive: keep_recent must be 0");
    assert_eq!(grace, u64::MAX, "archive: grace must be u64::MAX");
}

#[test]
fn storage_profile_defaults_full() {
    let (body, witness, keep, grace) = StorageProfile::Full.pruning_defaults();
    assert_eq!(body, 0, "full: body_retention must be 0");
    assert!(witness > 0, "full: witness_retention must be non-zero");
    assert_eq!(keep, 0, "full: keep_recent must be 0");
    assert_eq!(grace, 0, "full: grace must be 0");
}

#[test]
fn storage_profile_defaults_light() {
    let (body, witness, keep, grace) = StorageProfile::Light.pruning_defaults();
    assert!(body > 0, "light: body_retention must be non-zero");
    assert!(witness > 0, "light: witness_retention must be non-zero");
    assert!(keep > 0, "light: keep_recent must be non-zero");
    assert_eq!(grace, 0, "light: grace must be 0");
}

#[test]
fn storage_profile_explicit_override_wins() {
    // Explicit body_retention=999 must override full profile's default of 0.
    let cfg = StorageProfile::Full.to_pruning_config(Some(999), None, None);
    assert_eq!(cfg.body_retention, 999);
    // witness still uses the full profile default.
    assert_eq!(cfg.witness_retention, DEFAULT_WITNESS_RETENTION);
}

#[test]
fn storage_profile_to_pruning_config_archive() {
    let cfg = StorageProfile::Archive.to_pruning_config(None, None, None);
    assert_eq!(cfg.body_retention, 0);
    assert_eq!(cfg.witness_retention, 0);
    assert_eq!(cfg.keep_recent, 0);
    assert_eq!(cfg.proof_replacement_grace, u64::MAX);
}

#[test]
fn storage_profile_is_inferred_from_its_own_config() {
    for profile in [
        StorageProfile::Archive,
        StorageProfile::Full,
        StorageProfile::Light,
    ] {
        let cfg = profile.to_pruning_config(None, None, Some(7));
        assert_eq!(StorageProfile::from_pruning_config(&cfg), profile);
    }
}

#[test]
fn pruned_profile_triggers_trie_deletion() {
    let (chain, mut trie, roots, _leaves) = populate_state_chain();

    let result = prune_state_trie(&chain, &mut trie, 2, StorageProfile::Light).unwrap();

    assert!(result.deleted_nodes > 0);
    assert!(result.pruned_roots > 0);
    assert!(!trie.has_snapshot(&roots[0]));
    assert!(trie.has_snapshot(&roots[2]));
    assert_eq!(
        result,
        StateTriePruneResult {
            pruned_roots: 2,
            deleted_nodes: 4,
            skipped_roots: 0
        }
    );
}

#[test]
fn archive_profile_does_not_delete_trie_nodes() {
    let (chain, mut trie, roots, _leaves) = populate_state_chain();

    let result = prune_state_trie(&chain, &mut trie, 2, StorageProfile::Archive).unwrap();

    assert_eq!(result, StateTriePruneResult::default());
    assert!(trie.has_snapshot(&roots[0]));
    assert!(trie.has_snapshot(&roots[2]));
}

#[test]
fn pruned_block_state_root_becomes_inaccessible_after_prune() {
    let (chain, mut trie, roots, leaves) = populate_state_chain();

    assert!(trie.has_snapshot(&roots[1]));
    prune_state_trie(&chain, &mut trie, 2, StorageProfile::Light).unwrap();

    assert!(!trie.has_snapshot(&roots[1]));
    assert!(!trie.has_node(&leaves[1]));
    assert!(trie.has_node(&dummy_root(0x40)), "a shared node stays");
    assert!(trie.has_snapshot(&roots[2]));
}

#[test]
fn trie_pruning_twice_skips_what_is_gone() {
    let (chain, mut trie, _roots, _leaves) = populate_state_chain();
    prune_state_trie(&chain, &mut trie, 2, StorageProfile::Light).unwrap();
    let again = prune_state_trie(&chain, &mut trie, 2, StorageProfile::Light).unwrap();
    assert_eq!(again.deleted_nodes, 0);
    assert_eq!(again.skipped_roots, 2);
}

#[test]
fn trie_pruning_needs_every_retained_state() {
    let (mut chain, mut trie, roots, _leaves) = populate_state_chain();
    let unknown = dummy_root(0x77);
    let block = make_block(3, chain.get_head_hash().unwrap(), unknown);
    chain.apply(StoreOp::SetCanonical(3, block.hash));
    chain.apply(StoreOp::SetHead(block.hash));
    chain.put_block(block);

    let err = prune_state_trie(&chain, &mut trie, 2, StorageProfile::Light).unwrap_err();

    assert_eq!(err, NodeError::StateUnavailable { root: unknown });
    assert!(trie.has_snapshot(&roots[0]), "nothing is deleted");
}

#[test]
fn storage_profile_pruned_alias_parses() {
    assert_eq!(
        StorageProfile::from_str("pruned").unwrap(),
        StorageProfile::Light
    );
    assert_eq!(
        StorageProfile::from_str("PRUNED").unwrap(),
        StorageProfile::Light
    );
}

#[test]
fn storage_profile_rolling_alias_parses() {
    assert_eq!(
        StorageProfile::from_str("rolling").unwrap(),
        StorageProfile::Light
    );
    assert_eq!(
        StorageProfile::from_str("Rolling").unwrap(),
        StorageProfile::Light
    );
}

#[test]
fn storage_profile_whitepaper_name_light_is_pruned() {
    assert_eq!(StorageProfile::Light.whitepaper_name(), "pruned");
}

#[test]
fn storage_profile_whitepaper_names_archive_and_full_unchanged() {
    assert_eq!(StorageProfile::Archive.whitepaper_name(), "archive");
    assert_eq!(StorageProfile::Full.whitepaper_name(), "full");
}

#[test]
fn storage_profile_unknown_error_mentions_aliases() {
    let err = StorageProfile::from_str("bad_profile").unwrap_err();
    // Error message should guide users to both canonical and alias names.
    assert!(err.contains("archive"), "error should mention archive");
    assert!(err.contains("full"), "error should mention full");
    assert!(err.contains("pruned"), "error should mention pruned");
}

#[test]
fn storage_profile_unknown_error_shows_the_lowered_input() {
    let err = StorageProfile::from_str("BAD").unwrap_err();
    assert_eq!(
        err,
        "unknown storage profile 'bad'; valid values: archive, full, pruned (aliases: rolling, light)"
    );
}
