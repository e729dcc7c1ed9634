use shell_node::chain::{Block, ChainStore, Header, SignedTransaction, StoreOp};
use shell_node::error::NodeError;
use shell_node::fork::{
    preferred_fork_plan, unique_reverted_transactions, ForkAdoptionPlan, ForkPreference, ForkScore,
};
use shell_node::node::{
    apply_pending_activations, finish_grace_delete, head_number, local_validator_weight,
    prune_grace_witnesses,
    register_fork_choice_block, reload_authorities_if_boundary, validate_system_contract_effects,
    Node, NodeConfig, StoredState, SystemContractEffects,
};
use shell_node::finality::FinalityState;
use shell_node::primitives::{Address, ShellHash};
use shell_node::prover::L2StarkMode;
use shell_node::pruning::PruningConfig;
use shell_node::reorg::ReorgEngine;
use shell_node::stark::{LayeredSource, StoredProof};
use shell_node::table::Table;

fn hash(n: u8) -> ShellHash {
    ShellHash::from([n; 32])
}

fn address(n: u8) -> Address {
    Address::from([n; 32])
}

fn tx(gas_limit: u64) -> SignedTransaction {
    SignedTransaction {
        hash: ShellHash::from([(gas_limit / 1_000) as u8; 32]),
        sender: address(1),
        nonce: 0,
        gas_limit,
        signature_len: 3_309,
    }
}

fn block(number: u64, own: u8, parent: u8) -> Block {
    Block {
        hash: hash(own),
        header: Header {
            number,
            parent_hash: hash(parent),
            state_root: ShellHash::zero(),
            timestamp: 1_700_000_000 + number,
            gas_used: 0,
        },
        transactions: vec![],
        sig_entries: 0,
    }
}

fn put_canonical(chain: &mut ChainStore, block: Block) {
    chain.apply(StoreOp::SetCanonical(block.header.number, block.hash));
    chain.apply(StoreOp::SetHead(block.hash));
    chain.put_block(block);
}

/// A chain of the genesis block alone.
fn genesis_chain() -> ChainStore {
    let mut chain = ChainStore::new(ShellHash::zero());
    put_canonical(&mut chain, block(0, 0xA0, 0));
    chain
}

fn one_validator() -> Table<Address, u64> {
    let mut weights = Table::new();
    weights.insert(address(1), 1);
    weights
}

fn preference(
    preferred: u8,
    number: u64,
    attested_weight: u64,
    ancestor: u8,
    old: &[u8],
    new: &[u8],
) -> ForkPreference {
    ForkPreference {
        preferred_hash: hash(preferred),
        score: Some(ForkScore {
            block_number: number,
            attested_weight,
        }),
        ancestor_hash: Some(hash(ancestor)),
        old_hashes: old.iter().map(|n| hash(*n)).collect(),
        new_hashes: new.iter().map(|n| hash(*n)).collect(),
    }
}

fn plan(
    chain: &ChainStore,
    preference: &ForkPreference,
) -> Result<Option<ForkAdoptionPlan>, NodeError> {
    preferred_fork_plan(chain, preference, &one_validator(), 0, ShellHash::zero())
}

#[test]
fn preferred_fork_plan_requires_quorum_for_noncanonical_branch() {
    let mut chain = genesis_chain();
    let same_height = preference(0x21, 0, 0, 0xA0, &[], &[0x21]);
    assert!(plan(&chain, &same_height).unwrap().is_none());

    let unattested = preference(0xB1, 1, 0, 0xA0, &[], &[0xB1]);
    assert!(plan(&chain, &unattested).unwrap().is_none());

    let attested = preference(0xB1, 1, 1, 0xA0, &[], &[0xB1]);
    let missing_block = plan(&chain, &attested).unwrap_err();
    assert!(missing_block.message().contains("block not found"));

    chain.put_side_fork_block(block(1, 0xB1, 0xA0));
    let adoption = plan(&chain, &attested).unwrap().unwrap();
    assert_eq!(adoption.preferred_hash, hash(0xB1));
    assert_eq!(adoption.preferred_number, 1);
    assert_eq!(adoption.canonical_number, 0);
    assert_eq!(adoption.ancestor_hash, hash(0xA0));
    assert_eq!(adoption.ancestor_number, 0);
    assert!(adoption.old_chain.is_empty());
    assert_eq!(adoption.new_chain.len(), 1);
    assert_eq!(adoption.new_chain[0].hash, hash(0xB1));
    assert!(adoption.reverted_txs.is_empty());

    let finalized_error =
        preferred_fork_plan(&chain, &attested, &one_validator(), 1, hash(0xB1)).unwrap_err();
    assert!(finalized_error
        .message()
        .contains("crosses finalized block"));
}

#[test]
fn fork_adoption_reverts_only_transactions_absent_from_preferred_chain() {
    let old_only = tx(21_000);
    let retained = tx(22_000);
    let mut old_block = block(1, 0xA1, 0xA0);
    old_block.transactions = vec![old_only, retained, old_only];
    let mut new_block = block(1, 0xB1, 0xA0);
    new_block.transactions = vec![retained];

    let reverted = unique_reverted_transactions(&vec![old_block], &vec![new_block]);

    assert_eq!(reverted.len(), 1);
    assert_eq!(reverted[0].hash, old_only.hash);
}

/// The canonical chain A0-A1 and a fork A0-B1-B2, all blocks known.
fn forked_chain() -> ChainStore {
    let mut chain = genesis_chain();
    let mut canonical = block(1, 0xA1, 0xA0);
    canonical.transactions = vec![tx(21_000)];
    put_canonical(&mut chain, canonical);
    chain.put_side_fork_block(block(1, 0xB1, 0xA0));
    chain.put_side_fork_block(block(2, 0xB2, 0xB1));
    chain
}

#[test]
fn a_planned_adoption_is_carried_out() {
    let mut chain = forked_chain();
    let preferred = preference(0xB2, 2, 1, 0xA0, &[0xA1], &[0xB1, 0xB2]);
    let adoption = plan(&chain, &preferred).unwrap().unwrap();
    assert_eq!(adoption.reverted_txs.len(), 1);

    let result = ReorgEngine::execute(
        &mut chain,
        adoption.ancestor_hash,
        adoption.ancestor_number,
        &preferred.old_hashes,
        &preferred.new_hashes,
        0,
    )
    .unwrap();
    assert_eq!(result.new_head, hash(0xB2));
    assert_eq!(chain.get_block_hash_by_number(1), Some(hash(0xB1)));
    assert_eq!(head_number(&chain), 2);
}

#[test]
fn fork_plan_errors_name_their_cause() {
    let chain = forked_chain();
    let good = || preference(0xB2, 2, 1, 0xA0, &[0xA1], &[0xB1, 0xB2]);
    let fail = |p: &ForkPreference| plan(&chain, p).unwrap_err();

    let empty = ChainStore::new(ShellHash::zero());
    assert_eq!(plan(&empty, &good()).unwrap_err(), NodeError::NoGenesis);

    let mut p = good();
    p.score = None;
    assert_eq!(
        fail(&p),
        NodeError::ForkUnscored {
            preferred: hash(0xB2)
        }
    );
    let mut p = good();
    p.ancestor_hash = None;
    assert!(matches!(fail(&p), NodeError::ForkNoAncestor { .. }));
    let mut p = good();
    p.new_hashes = vec![];
    assert!(matches!(fail(&p), NodeError::ForkPathEmpty { .. }));
    let mut p = good();
    p.new_hashes.push(hash(0xB3));
    assert_eq!(fail(&p), NodeError::ForkTooLong);
    let mut p = good();
    p.old_hashes = vec![];
    assert!(matches!(fail(&p), NodeError::ForkPathsDisagree { .. }));
    let mut p = good();
    p.ancestor_hash = Some(hash(0xAF));
    assert!(matches!(
        fail(&p),
        NodeError::ForkAncestorNotCanonical { .. }
    ));
    let mut p = good();
    p.new_hashes = vec![hash(0xB2), hash(0xB1)];
    assert!(matches!(
        fail(&p),
        NodeError::SegmentContinuityBroken { .. }
    ));
    let mut p = good();
    p.old_hashes = vec![hash(0xB1)];
    assert!(matches!(fail(&p), NodeError::SegmentNotCanonical { .. }));
}

fn node_config(proposer: Option<Address>) -> NodeConfig {
    NodeConfig {
        chain_id: 1337,
        proposer_address: proposer,
        pruning: PruningConfig::default(),
        enable_stark_aggregation: false,
        l2_stark_mode: L2StarkMode::Disabled,
        max_peers: 0,
    }
}

#[test]
fn node_creation() {
    let node = Node::new(
        node_config(Some(address(1))),
        genesis_chain(),
        StoredState::empty(),
        one_validator(),
        256,
    );
    assert_eq!(node.config.chain_id, 1337);
    assert!(node.config.proposer_address.is_some());
    assert_eq!(node.peer_capability_limit, 256);
    assert!(node.wpoa_round.is_none());
}

/// A chain of four blocks whose first one above the genesis block is final.
fn finalized_chain() -> ChainStore {
    let mut chain = genesis_chain();
    put_canonical(&mut chain, block(1, 0xA1, 0xA0));
    put_canonical(&mut chain, block(2, 0xA2, 0xA1));
    put_canonical(&mut chain, block(3, 0xA3, 0xA2));
    chain.apply(StoreOp::SetFinalized(1));
    chain
}

#[test]
fn node_restores_canonical_fork_choice_from_finality_to_head() {
    let node = Node::new(
        node_config(Some(address(1))),
        finalized_chain(),
        StoredState::empty(),
        one_validator(),
        256,
    );
    let seed = &node.fork_choice;
    assert_eq!(seed.root_hash, hash(0xA1));
    assert_eq!(seed.root_number, 1);
    assert!(seed.root_finalized);
    assert_eq!(seed.blocks.len(), 2);
    assert_eq!(seed.blocks[0].hash, hash(0xA2));
    assert_eq!(seed.blocks[0].parent_hash, hash(0xA1));
    assert_eq!(seed.blocks[1].hash, hash(0xA3));
    assert_eq!(seed.blocks[1].parent_hash, hash(0xA2));
    assert_eq!(seed.blocks[1].number, 3);
}

#[test]
fn node_recovers_finalized_hash_after_finalized_body_is_pruned() {
    let mut chain = finalized_chain();
    chain.prune_body(&hash(0xA1));
    assert!(chain.get_block_by_number(1).is_none());
    assert_eq!(chain.get_block_hash_by_number(1), Some(hash(0xA1)));

    let restarted = Node::new(
        node_config(None),
        chain,
        StoredState::empty(),
        one_validator(),
        256,
    );

    assert_eq!(restarted.finality.last_finalized_number(), 1);
    assert_eq!(restarted.finality.last_finalized_hash(), hash(0xA1));
}

#[test]
fn a_restarted_node_has_what_its_store_holds() {
    let mut stored = StoredState::empty();
    stored
        .commit_certificates
        .insert(hash(0xA1), b"certificate".to_vec());
    stored.proofs.insert(
        hash(0xA1),
        StoredProof::Decoded {
            layer: 1,
            batch_root: [7; 32],
        },
    );
    stored.witnesses.insert(hash(0xA2), 3_317);
    stored.l2_inputs.insert(hash(0xA1), ());
    let mut node = Node::new(
        node_config(None),
        finalized_chain(),
        stored,
        one_validator(),
        256,
    );
    assert_eq!(
        node.commit_certificates.get(&hash(0xA1)),
        Some(&b"certificate".to_vec())
    );
    assert!(matches!(
        node.stark.get_proof(&hash(0xA1)),
        Some(StoredProof::Decoded { layer: 1, .. })
    ));
    assert_eq!(node.stark.witness_size(&hash(0xA2)), Some(3_317));
    assert!(node.stark.has_l2_input(&hash(0xA1)));
    assert!(!node.stark.has_l2_input(&hash(0xA2)));

    assert!(!node.stark.has_settled_source(1, hash(0xA1)));
    node.stark.restore_settled(&vec![LayeredSource {
        layer: 1,
        hash: hash(0xA1),
    }]);
    assert!(node.stark.has_settled_source(1, hash(0xA1)));
    assert!(!node.stark.has_settled_source(2, hash(0xA1)));
}

#[test]
fn restored_fork_choice_stops_at_the_first_gap() {
    let mut chain = finalized_chain();
    chain.apply(StoreOp::DeleteCanonical(2));
    let node = Node::new(
        node_config(None),
        chain,
        StoredState::empty(),
        one_validator(),
        256,
    );
    assert!(node.fork_choice.blocks.is_empty());

    let node = Node::new(
        node_config(None),
        genesis_chain(),
        StoredState::empty(),
        one_validator(),
        256,
    );
    assert_eq!(node.fork_choice.root_hash, hash(0xA0));
    assert!(!node.fork_choice.root_finalized);
}

#[test]
fn head_number_returns_current_height() {
    let mut chain = genesis_chain();
    assert_eq!(head_number(&chain), 0);
    put_canonical(&mut chain, block(1, 0xA1, 0xA0));
    assert_eq!(head_number(&chain), 1);
    assert_eq!(head_number(&ChainStore::new(ShellHash::zero())), 0);
}

#[test]
fn local_validator_weight_returns_active_weight() {
    assert_eq!(
        local_validator_weight(Some(address(1)), &one_validator()),
        Some(1)
    );
    assert_eq!(local_validator_weight(None, &one_validator()), None);
    let mut slashed = Table::new();
    slashed.insert(address(1), 0);
    assert_eq!(local_validator_weight(Some(address(1)), &slashed), None);
}

#[test]
fn local_validator_weight_ignores_non_authority_proposer() {
    let mut active = Table::new();
    active.insert(address(0x22), 1);
    assert_eq!(local_validator_weight(Some(address(0x11)), &active), None);
}

#[test]
fn fork_choice_takes_weight_and_finality_from_the_tracker() {
    let mut finality = FinalityState::with_finalized(3, hash(3));
    assert!(finality.record_attestation_weighted(hash(9), 4, address(1), 7));
    assert_eq!(register_fork_choice_block(&finality, &hash(9), 4), (7, false));
    assert_eq!(register_fork_choice_block(&finality, &hash(3), 3), (0, true));
}

#[test]
fn validators_are_reloaded_at_epoch_boundaries() {
    let validators = vec![address(1), address(2), address(1)];
    let weights = vec![1, 2, 3];
    let set = reload_authorities_if_boundary(10, true, &validators, &weights).unwrap();
    assert_eq!(set.len(), 2);
    assert_eq!(set.get(&address(1)), Some(&3));
    assert!(reload_authorities_if_boundary(10, false, &validators, &weights).is_none());
    assert!(reload_authorities_if_boundary(0, false, &validators, &weights).is_some());
    assert!(reload_authorities_if_boundary(0, true, &vec![], &vec![]).is_none());
}

#[test]
fn system_effects_are_checked() {
    let mut effects = SystemContractEffects {
        validator_set_changed: true,
        validator_count: 0,
        registry_exists: false,
        updated_accounts: vec![(address(1), true), (address(2), false)],
    };
    let check = |e: &SystemContractEffects| validate_system_contract_effects(e, 3);
    assert_eq!(check(&effects), Err(NodeError::EmptyValidatorSet));
    effects.validator_count = 4;
    assert_eq!(
        check(&effects),
        Err(NodeError::TooManyValidators { count: 4, max: 3 })
    );
    effects.validator_count = 3;
    assert_eq!(check(&effects), Err(NodeError::RegistryAccountMissing));
    effects.registry_exists = true;
    assert_eq!(
        check(&effects),
        Err(NodeError::UpdatedAccountMissing {
            address: address(2)
        })
    );
    effects.updated_accounts.pop();
    assert_eq!(check(&effects), Ok(()));
}

#[test]
fn grace_window_witness_delete_retries_after_storage_failure() {
    let mut pending = Table::new();
    pending.insert(hash(0x42), 10);
    assert!(prune_grace_witnesses(&pending, 9).is_empty());

    assert_eq!(prune_grace_witnesses(&pending, 10), vec![hash(0x42)]);
    finish_grace_delete(&mut pending, &hash(0x42), false);
    assert!(pending.contains_key(&hash(0x42)));

    assert_eq!(prune_grace_witnesses(&pending, 11), vec![hash(0x42)]);
    finish_grace_delete(&mut pending, &hash(0x42), true);
    assert!(!pending.contains_key(&hash(0x42)));
}

/// Applies what a reload after a block asks for. An epoch ends where its length divides the height.
fn reload(
    active: &mut Table<Address, u64>,
    epoch_length: u64,
    block_number: u64,
    validators: &Vec<Address>,
    weights: &Vec<u64>,
) {
    let at_boundary = epoch_length > 0 && block_number % epoch_length == 0;
    if let Some(set) =
        reload_authorities_if_boundary(epoch_length, at_boundary, validators, weights)
    {
        *active = set;
    }
}

#[test]
fn epoch_boundary_reloads_validators() {
    let mut active = one_validator();
    let registry = vec![address(1), address(0xAA)];
    assert_eq!(active.len(), 1);
    for number in 1..=3 {
        reload(&mut active, 3, number, &registry, &vec![1, 1]);
    }
    assert_eq!(active.len(), 2);
    assert!(active.contains_key(&address(1)));
    assert!(active.contains_key(&address(0xAA)));
}

#[test]
fn validator_change_takes_effect_at_next_epoch() {
    let mut active = one_validator();
    reload(&mut active, 2, 1, &vec![address(1)], &vec![1]);
    assert_eq!(active.len(), 1);
    let registry = vec![address(1), address(0xCC)];
    reload(&mut active, 2, 1, &registry, &vec![1, 1]);
    assert_eq!(active.len(), 1, "not reloaded until the epoch boundary");
    reload(&mut active, 2, 2, &registry, &vec![1, 1]);
    assert_eq!(active.len(), 2);
}

#[test]
fn authority_reload_uses_world_state_weights() {
    let mut active = one_validator();
    reload(
        &mut active,
        0,
        1,
        &vec![address(1), address(0xDD)],
        &vec![4, 2],
    );
    assert_eq!(active.get(&address(1)), Some(&4));
    assert_eq!(active.get(&address(0xDD)), Some(&2));
}

#[test]
fn activation_transition_propagates_persistence_failure() {
    let err = apply_pending_activations(
        1,
        "production".to_string(),
        Err("injected put failure".to_string()),
    )
    .expect_err("activation persistence failure must propagate");
    let message = err.message();
    assert!(message.contains("injected put failure"));
    assert!(message.contains("algorithm activation at block 1"));
}

#[test]
fn chain_store_get_block_by_number_roundtrip() {
    let mut chain = genesis_chain();
    for number in 1..=4u8 {
        put_canonical(
            &mut chain,
            block(u64::from(number), 0xA0 + number, 0x9F + number),
        );
    }
    for number in 1..=4u8 {
        let found = chain.get_block_by_number(u64::from(number)).unwrap();
        assert_eq!(found.hash, hash(0xA0 + number));
        assert_eq!(found.number(), u64::from(number));
    }
}

#[test]
fn l2_proof_amendment_respects_grace_window() {
    // A proof for block 1 with two blocks of grace: the bundle stays until the head is at block 3.
    let grace: u64 = 2;
    let mut pending = Table::new();
    pending.insert(hash(1), 1 + grace);
    assert!(
        prune_grace_witnesses(&pending, 1).is_empty(),
        "within grace window: should NOT delete"
    );
    assert_eq!(prune_grace_witnesses(&pending, 3), vec![hash(1)]);
}
