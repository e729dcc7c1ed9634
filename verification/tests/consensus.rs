use shell_node::certificate::{
    decode_commit_certificate, encode_commit_certificate, parse_address, parse_certificate_signer,
};
use shell_node::chain::{Block, ChainStore, Header, StoreOp};
use shell_node::error::{NodeError, StorageError};
use shell_node::finality::{Attestation, AttestationStep, FinalityState};
use shell_node::node::{Node, NodeConfig, StoredState};
use shell_node::primitives::{Address, ShellHash};
use shell_node::prover::L2StarkMode;
use shell_node::pruning::PruningConfig;
use shell_node::quorum::{has_weighted_quorum, total_weight};
use shell_node::signature::{
    check_signer, PQSignature, SignatureType, SignerEvidence, SignerFault, Verdict,
};
use shell_node::table::Table;
use shell_node::votes::{
    next_block_number, PeerEvent, ViewChangeMessage, VoteDecision, WPoaRound,
};

fn hash(n: u8) -> ShellHash {
    ShellHash::from([n; 32])
}

fn address(n: u8) -> Address {
    Address::from([n; 32])
}

fn weights(pairs: &[(u8, u64)]) -> Table<Address, u64> {
    let mut table = Table::new();
    for (validator, weight) in pairs {
        table.insert(address(*validator), *weight);
    }
    table
}

fn failure(detail: &str) -> StorageError {
    StorageError {
        detail: detail.to_string(),
    }
}

/// A good signature of the first algorithm, as checking it would show.
fn valid() -> SignerEvidence {
    SignerEvidence {
        key_known: true,
        inferred: Some(SignatureType::Dilithium3),
        allowed: true,
        verdict: Verdict::Valid,
    }
}

fn sig() -> PQSignature {
    PQSignature::new(SignatureType::Dilithium3, vec![1, 2, 3])
}

fn block(number: u64, hash: ShellHash, parent_hash: ShellHash) -> Block {
    Block {
        hash,
        header: Header {
            number,
            parent_hash,
            state_root: ShellHash::zero(),
            timestamp: 1_700_000_000 + number,
            gas_used: 0,
        },
        transactions: vec![],
        sig_entries: 0,
    }
}

const GENESIS: u8 = 0xE0;
const BLOCK: u8 = 0xE1;
const SIDE: u8 = 0xE2;

/// A node of the first validator on a chain of the genesis block and one more, with all keys
/// registered and a block beside the canonical one.
fn setup_node(pairs: &[(u8, u64)]) -> Node {
    let mut chain = ChainStore::new(ShellHash::zero());
    chain.put_block(block(0, hash(GENESIS), ShellHash::zero()));
    chain.put_block(block(1, hash(BLOCK), hash(GENESIS)));
    chain.put_side_fork_block(block(1, hash(SIDE), hash(GENESIS)));
    chain.apply(StoreOp::SetCanonical(0, hash(GENESIS)));
    chain.apply(StoreOp::SetCanonical(1, hash(BLOCK)));
    chain.apply(StoreOp::SetHead(hash(BLOCK)));
    let mut node = Node::new(
        NodeConfig {
            chain_id: 1337,
            proposer_address: Some(address(pairs[0].0)),
            pruning: PruningConfig::default(),
            enable_stark_aggregation: false,
            l2_stark_mode: L2StarkMode::Disabled,
            max_peers: 0,
        },
        chain,
        StoredState::empty(),
        weights(pairs),
        256,
    );
    for (validator, _) in pairs {
        node.register_authority_pubkey(address(*validator), vec![*validator; 4]);
    }
    node
}

fn start_round(node: &mut Node, block_number: u64, block_hash: ShellHash) {
    let mut round = WPoaRound::new(block_number, node.validator_weights.duplicate());
    assert!(round.on_block_proposed(block_hash));
    node.wpoa_round = Some(round);
}

fn phase(node: &Node) -> &'static str {
    node.wpoa_round.as_ref().unwrap().phase_name()
}

/// Votes, and completes a commit with the outcome of its write.
fn vote(
    node: &mut Node,
    voter: u8,
    block_hash: ShellHash,
    written: Result<(), StorageError>,
) -> VoteDecision {
    let step = node.handle_wpoa_vote(address(voter), block_hash, 1, sig(), valid());
    if let Some(commit) = step.commit {
        node.finish_commit(commit, b"certificate".to_vec(), written);
    }
    step.decision
}

/// Attests, and completes finality with the outcome of its write.
fn attest(
    node: &mut Node,
    attestation: &Attestation,
    written: Result<(), StorageError>,
) -> Result<AttestationStep, NodeError> {
    let step = node.handle_attestation(attestation, valid())?;
    if let AttestationStep::Counted {
        finalizes: true, ..
    } = step
    {
        node.finish_attestation(attestation.block_number, attestation.block_hash, written)?;
    }
    Ok(step)
}

fn attestation(node: &Node, block_hash: ShellHash) -> Attestation {
    node.create_attestation(block_hash, 1, Ok(vec![9; 8])).unwrap()
}

fn fast_finalize(
    node: &mut Node,
    block_hash: ShellHash,
    signatures: &[(u8, PQSignature)],
    written: Result<(), StorageError>,
) -> bool {
    let mut table = Table::new();
    let mut evidence = Table::new();
    for (signer, signature) in signatures {
        table.insert(address(*signer), signature.duplicate());
        evidence.insert(address(*signer), valid());
    }
    let entries = Some(Node::encode_commit_certificate(&table));
    let cert = b"certificate".to_vec();
    match node.fast_finalize_with_certificate(1, block_hash, &entries, &cert, &evidence) {
        Some(write) => node.finish_fast_finalize(1, block_hash, write, cert, written),
        None => false,
    }
}

#[test]
fn handle_attestation_routes_mldsa65_signatures() {
    let mut node = setup_node(&[(1, 1)]);
    let attestation = attestation(&node, hash(BLOCK));
    let shown = SignerEvidence {
        inferred: Some(SignatureType::MlDsa65),
        ..valid()
    };
    let step = node.handle_attestation(&attestation, shown).unwrap();
    assert_eq!(
        step,
        AttestationStep::Counted {
            attested_weight: 1,
            finalizes: true
        }
    );
    node.finish_attestation(1, hash(BLOCK), Ok(())).unwrap();
    assert_eq!(node.finality.last_finalized_hash(), hash(BLOCK));
    assert_eq!(node.finality.attestation_count(&hash(BLOCK)), 0);
    assert_eq!(node.fork_choice.block_count(), 1);
    assert_eq!(
        node.fork_choice.parent(&hash(BLOCK)),
        Some(ShellHash::zero())
    );
}

#[test]
fn fork_choice_follows_attestations_and_finality() {
    let mut node = setup_node(&[(1, 1), (2, 1), (3, 1)]);
    assert_eq!(node.fork_choice.block_count(), 2);
    assert_eq!(node.fork_choice.parent(&hash(BLOCK)), Some(hash(GENESIS)));
    assert_eq!(node.fork_choice.weight(&hash(BLOCK)), 0);
    assert!(node.add_fork_choice_block(hash(SIDE), hash(GENESIS), 1));
    assert!(!node.add_fork_choice_block(hash(SIDE), hash(GENESIS), 1));
    assert!(node.add_fork_choice_block(hash(0xE3), hash(BLOCK), 2));

    let mut attestation = attestation(&node, hash(BLOCK));
    attest(&mut node, &attestation, Ok(())).unwrap();
    assert_eq!(node.fork_choice.weight(&hash(BLOCK)), 1);
    attestation.validator = address(2);
    attest(&mut node, &attestation, Ok(())).unwrap();
    assert_eq!(node.fork_choice.weight(&hash(BLOCK)), 2);
    assert_eq!(node.fork_choice.weight(&hash(SIDE)), 0);
    assert_eq!(node.fork_choice.root_hash, hash(GENESIS));

    attestation.validator = address(3);
    let failed = attest(&mut node, &attestation, Err(failure("disk full")));
    assert!(failed.is_err());
    assert_eq!(node.fork_choice.weight(&hash(BLOCK)), 3);
    assert_eq!(
        node.fork_choice.root_hash,
        hash(GENESIS),
        "nothing is final before it is written"
    );
    attest(&mut node, &attestation, Ok(())).unwrap();
    assert_eq!(node.fork_choice.root_hash, hash(BLOCK));
    assert!(node.fork_choice.root_finalized);
    assert_eq!(node.fork_choice.weight(&hash(BLOCK)), 3);
    assert!(!node.fork_choice.contains(&hash(GENESIS)));
    assert_eq!(node.fork_choice.parent(&hash(GENESIS)), None);
    assert_eq!(node.fork_choice.parent(&hash(0xE3)), Some(hash(BLOCK)));
}

#[test]
fn handle_attestation_does_not_finalize_noncanonical_block() {
    let mut node = setup_node(&[(1, 1)]);
    let attestation = attestation(&node, hash(SIDE));
    attest(&mut node, &attestation, Ok(())).unwrap();

    assert_eq!(node.finality.last_finalized_number(), 0);
    assert_eq!(node.finality.last_finalized_hash(), ShellHash::zero());
    assert_eq!(node.finality.attestation_count(&hash(SIDE)), 1);
    assert_eq!(node.chain_store.get_finalized_number(), None);
    assert_eq!(
        node.chain_store.get_block_hash_by_number(1),
        Some(hash(BLOCK))
    );
}

#[test]
fn handle_attestation_persists_before_advancing_finality_and_retries_duplicate() {
    let mut node = setup_node(&[(1, 1)]);
    let attestation = attestation(&node, hash(BLOCK));

    let error = attest(
        &mut node,
        &attestation,
        Err(failure("injected put failure")),
    )
    .unwrap_err();
    assert!(error.message().contains("injected put failure"));
    assert_eq!(node.finality.last_finalized_number(), 0);
    assert_eq!(node.finality.last_finalized_hash(), ShellHash::zero());
    assert_eq!(
        node.finality.attestation_count(&hash(BLOCK)),
        1,
        "the pending attestation must remain available for retry"
    );
    assert_eq!(node.chain_store.get_finalized_number(), None);

    attest(&mut node, &attestation, Ok(())).unwrap();
    assert_eq!(node.finality.last_finalized_number(), 1);
    assert_eq!(node.finality.last_finalized_hash(), hash(BLOCK));
    assert_eq!(node.chain_store.get_finalized_number(), Some(1));
}

#[test]
fn handle_attestation_rejects_target_metadata_mismatch() {
    let mut node = setup_node(&[(1, 1)]);
    for (parent_hash, block_number) in [(hash(0x55), 1), (hash(GENESIS), 2)] {
        let attestation = Attestation {
            chain_id: 1337,
            parent_hash,
            block_hash: hash(BLOCK),
            block_number,
            validator: address(1),
            round: 0,
            signature: vec![9; 8],
        };
        let error = attest(&mut node, &attestation, Ok(())).unwrap_err();
        assert!(error
            .message()
            .contains("attestation target does not match stored block header"));
    }
    assert_eq!(node.finality.attestation_count(&hash(BLOCK)), 0);
    assert_eq!(node.finality.last_finalized_number(), 0);
}

#[test]
fn handle_attestation_rejects_equivocation() {
    let mut node = setup_node(&[(1, 1), (2, 1)]);
    let first = attestation(&node, hash(BLOCK));
    attest(&mut node, &first, Ok(())).unwrap();

    let second = attestation(&node, hash(SIDE));
    let result = attest(&mut node, &second, Ok(()));

    assert!(result.is_err(), "equivocation must be rejected");
    let err_msg = result.unwrap_err().message();
    assert!(
        err_msg.contains("equivocation"),
        "error should mention equivocation: {err_msg}"
    );
}

#[test]
fn handle_attestation_waits_for_an_unknown_block() {
    let mut node = setup_node(&[(1, 1)]);
    let mut unknown = attestation(&node, hash(BLOCK));
    unknown.block_hash = hash(0x99);
    assert_eq!(
        attest(&mut node, &unknown, Ok(())),
        Ok(AttestationStep::UnknownBlock)
    );
}

#[test]
fn handle_attestation_needs_more_than_two_thirds() {
    let mut node = setup_node(&[(1, 1), (2, 1), (3, 1)]);
    let mut attestation = attestation(&node, hash(BLOCK));
    attest(&mut node, &attestation, Ok(())).unwrap();
    attestation.validator = address(2);
    let step = attest(&mut node, &attestation, Ok(())).unwrap();
    assert_eq!(
        step,
        AttestationStep::Counted {
            attested_weight: 2,
            finalizes: false
        }
    );
    attestation.validator = address(3);
    attest(&mut node, &attestation, Ok(())).unwrap();
    assert_eq!(node.finality.last_finalized_number(), 1);
}

#[test]
fn handle_attestation_errors_name_their_cause() {
    let mut node = setup_node(&[(1, 1), (2, 0)]);
    let mut foreign = attestation(&node, hash(BLOCK));
    foreign.chain_id = 1;
    assert_eq!(
        attest(&mut node, &foreign, Ok(())),
        Err(NodeError::AttestationChainId {
            got_chain: 1,
            local_chain: 1337
        })
    );
    let mut stranger = attestation(&node, hash(BLOCK));
    stranger.validator = address(7);
    assert_eq!(
        attest(&mut node, &stranger, Ok(())),
        Err(NodeError::AttestationSigner {
            validator: address(7),
            fault: SignerFault::UnknownKey
        })
    );
    node.register_authority_pubkey(address(7), vec![7]);
    assert_eq!(
        attest(&mut node, &stranger, Ok(())),
        Err(NodeError::InactiveValidator {
            validator: address(7)
        })
    );
    let good = attestation(&node, hash(BLOCK));
    let forged = SignerEvidence {
        verdict: Verdict::Invalid,
        ..valid()
    };
    assert_eq!(
        node.handle_attestation(&good, forged),
        Err(NodeError::AttestationSigner {
            validator: address(1),
            fault: SignerFault::InvalidSignature
        })
    );
    let disallowed = SignerEvidence {
        allowed: false,
        ..valid()
    };
    assert_eq!(
        node.handle_attestation(&good, disallowed)
            .unwrap_err()
            .message(),
        "attestation signature algorithm Dilithium3 not allowed"
    );
    let unreadable = SignerEvidence {
        verdict: Verdict::Failed {
            detail: "wrong signature length".to_string(),
        },
        ..valid()
    };
    assert_eq!(
        node.handle_attestation(&good, unreadable)
            .unwrap_err()
            .message(),
        "invalid attestation signature: wrong signature length"
    );
}

#[test]
fn create_attestation_needs_a_proposer_a_header_and_a_signature() {
    let mut node = setup_node(&[(1, 1)]);
    let made = attestation(&node, hash(BLOCK));
    assert_eq!(made.parent_hash, hash(GENESIS));
    assert_eq!((made.chain_id, made.block_number, made.round), (1337, 1, 0));
    assert_eq!(
        node.create_attestation(hash(0x77), 1, Ok(vec![])).unwrap_err(),
        NodeError::HeaderMissing { hash: hash(0x77) }
    );
    assert_eq!(
        node.create_attestation(hash(BLOCK), 1, Err("locked".to_string()))
            .unwrap_err(),
        NodeError::SigningFailed {
            detail: "locked".to_string()
        }
    );
    node.config.proposer_address = None;
    assert_eq!(
        node.create_attestation(hash(BLOCK), 1, Ok(vec![])).unwrap_err(),
        NodeError::NotProposer
    );
}

#[test]
fn finality_never_goes_back() {
    let mut finality = FinalityState::with_finalized(5, hash(5));
    assert!(!finality.set_finalized_direct(4, hash(4)));
    assert_eq!(finality.last_finalized_number(), 5);
    assert!(finality.set_finalized_direct(6, hash(6)));
    assert_eq!(finality.last_finalized_hash(), hash(6));
}

#[test]
fn quorum_is_strictly_above_two_thirds() {
    assert!(!has_weighted_quorum(2, 3));
    assert!(has_weighted_quorum(3, 3));
    assert!(!has_weighted_quorum(0, 0));
    assert!(has_weighted_quorum(u64::MAX, u64::MAX));
    assert_eq!(total_weight(&weights(&[(1, 3), (2, 4)])), 7);
    assert_eq!(total_weight(&weights(&[(1, u64::MAX), (2, 4)])), u64::MAX);
}

#[test]
fn wpoa_state_machine_propose_vote_commit() {
    let mut node = setup_node(&[(1, 1), (2, 1), (3, 1)]);
    let bh = hash(1);
    start_round(&mut node, 1, bh);
    assert_eq!(phase(&node), "Voting");
    assert!(
        !node.wpoa_round.as_mut().unwrap().on_block_proposed(hash(2)),
        "a round takes one proposal"
    );

    // First vote: not yet strict finality quorum.
    assert_eq!(vote(&mut node, 1, bh, Ok(())), VoteDecision::Record);
    // Exactly two thirds is not enough to finalize.
    assert_eq!(vote(&mut node, 2, bh, Ok(())), VoteDecision::Record);
    // Third vote exceeds two thirds and reaches finality quorum.
    let step = node.handle_wpoa_vote(address(3), bh, 1, sig(), valid());
    assert_eq!(step.decision, VoteDecision::Commit);
    assert_eq!(step.events.len(), 3, "every signer of the commit is rewarded");
    assert!(step
        .events
        .iter()
        .all(|(_, event)| *event == PeerEvent::ValidProofDelivered));
    let commit = step.commit.unwrap();
    assert_eq!(commit.block_hash, bh);
    assert_eq!(commit.signatures.len(), 3);
    assert!(node.finish_commit(commit, vec![], Ok(())));
    assert_eq!(phase(&node), "Committed");
}

#[test]
fn wpoa_handle_vote_reaches_quorum() {
    let mut node = setup_node(&[(1, 1), (2, 1), (3, 1)]);
    let block_hash = hash(42);
    start_round(&mut node, 1, block_hash);

    vote(&mut node, 2, block_hash, Ok(()));
    assert_eq!(phase(&node), "Voting", "should still be Voting after 1 vote");
    vote(&mut node, 3, block_hash, Ok(()));
    assert_eq!(phase(&node), "Voting");
    vote(&mut node, 1, block_hash, Ok(()));
    assert_eq!(
        phase(&node),
        "Committed",
        "should be Committed after quorum is reached"
    );
    assert_eq!(
        node.finality.last_finalized_number(),
        0,
        "a block that is not canonical here does not become final"
    );
}

#[test]
fn wpoa_handle_vote_rejects_zero_total_validator_weight() {
    let mut node = setup_node(&[(1, 0)]);
    let block_hash = hash(43);
    start_round(&mut node, 1, block_hash);
    vote(&mut node, 1, block_hash, Ok(()));

    assert_eq!(phase(&node), "Voting");
    assert_eq!(node.finality.last_finalized_number(), 0);
    assert!(node.commit_certificates.get(&block_hash).is_none());
}

#[test]
fn wpoa_handle_vote_rechecks_weights_changed_mid_round() {
    let mut node = setup_node(&[(1, 1)]);
    let block_hash = hash(44);
    start_round(&mut node, 1, block_hash);
    node.validator_weights = weights(&[(1, 0)]);
    vote(&mut node, 1, block_hash, Ok(()));

    assert_eq!(phase(&node), "Voting");
    assert_eq!(node.finality.last_finalized_number(), 0);
}

#[test]
fn wpoa_vote_retries_after_atomic_finality_write_failure() {
    let mut node = setup_node(&[(1, 1)]);
    start_round(&mut node, 1, hash(BLOCK));

    vote(
        &mut node,
        1,
        hash(BLOCK),
        Err(failure("injected batch failure")),
    );
    assert_eq!(phase(&node), "Voting");
    assert_eq!(node.finality.last_finalized_number(), 0);
    assert_eq!(node.chain_store.get_finalized_number(), None);
    assert!(node.commit_certificates.get(&hash(BLOCK)).is_none());

    vote(&mut node, 1, hash(BLOCK), Ok(()));
    assert_eq!(phase(&node), "Committed");
    assert_eq!(node.finality.last_finalized_number(), 1);
    assert_eq!(node.chain_store.get_finalized_number(), Some(1));
    assert!(node.commit_certificates.get(&hash(BLOCK)).is_some());
}

#[test]
fn wpoa_vote_persists_certificate_for_already_finalized_block() {
    let mut node = setup_node(&[(1, 1)]);
    node.finality.set_finalized_direct(1, hash(BLOCK));
    start_round(&mut node, 1, hash(BLOCK));

    vote(&mut node, 1, hash(BLOCK), Ok(()));

    assert_eq!(phase(&node), "Committed");
    assert!(node.commit_certificates.get(&hash(BLOCK)).is_some());
}

#[test]
fn wpoa_round_rebuild_preserves_verified_votes() {
    let mut node = setup_node(&[(1, 2), (2, 1), (3, 1)]);
    let block_hash = hash(45);
    start_round(&mut node, 1, block_hash);
    vote(&mut node, 1, block_hash, Ok(()));

    node.validator_weights = weights(&[(1, 1), (2, 3), (3, 3)]);
    vote(&mut node, 2, block_hash, Ok(()));
    assert_eq!(phase(&node), "Voting");

    vote(&mut node, 3, block_hash, Ok(()));
    assert_eq!(phase(&node), "Committed");
}

#[test]
fn wpoa_handle_vote_rejects_garbage_signature() {
    let mut node = setup_node(&[(1, 1), (2, 1), (3, 1)]);
    let block_hash = hash(99);
    start_round(&mut node, 1, block_hash);

    for voter in [2u8, 3] {
        let shown = SignerEvidence {
            verdict: Verdict::Invalid,
            ..valid()
        };
        let garbage =
            PQSignature::new(SignatureType::Dilithium3, vec![0xde, 0xad, 0xbe, 0xef]);
        let step = node.handle_wpoa_vote(address(voter), block_hash, 1, garbage, shown);
        assert_eq!(
            step.decision,
            VoteDecision::Reject(Some(PeerEvent::InvalidProofPayload))
        );
    }
    assert_eq!(
        phase(&node),
        "Voting",
        "round must NOT advance when all votes have garbage signatures"
    );
}

#[test]
fn wpoa_handle_vote_rejects_sig_type_mismatch() {
    let mut node = setup_node(&[(1, 1), (2, 1)]);
    let block_hash = hash(77);
    start_round(&mut node, 1, block_hash);

    let mismatched = PQSignature::new(SignatureType::MlDsa65, vec![1, 2, 3]);
    let step = node.handle_wpoa_vote(address(2), block_hash, 1, mismatched, valid());

    assert_eq!(
        step.decision,
        VoteDecision::Reject(Some(PeerEvent::InvalidProofPayload))
    );
    assert_eq!(
        phase(&node),
        "Voting",
        "algorithm-tag mismatch must cause vote rejection"
    );
}

#[test]
fn votes_that_do_not_belong_to_the_round_have_no_effect() {
    let mut node = setup_node(&[(1, 1), (2, 1), (3, 1)]);
    assert_eq!(vote(&mut node, 1, hash(1), Ok(())), VoteDecision::Ignore);
    start_round(&mut node, 1, hash(1));
    assert_eq!(
        vote(&mut node, 1, hash(2), Ok(())),
        VoteDecision::Reject(Some(PeerEvent::InvalidProofPayload))
    );
    assert_eq!(vote(&mut node, 1, hash(1), Ok(())), VoteDecision::Record);
    assert_eq!(
        vote(&mut node, 1, hash(1), Ok(())),
        VoteDecision::Reject(Some(PeerEvent::DuplicateMessage))
    );
    let other_height = node.handle_wpoa_vote(address(2), hash(1), 2, sig(), valid());
    assert_eq!(other_height.decision, VoteDecision::Ignore);
    let stranger = node.handle_wpoa_vote(address(9), hash(1), 1, sig(), valid());
    assert_eq!(stranger.decision, VoteDecision::Reject(None));
    assert!(stranger.events.is_empty());
    let twice = node.handle_wpoa_vote(address(1), hash(1), 1, sig(), valid());
    assert_eq!(
        twice.events,
        vec![(address(1), PeerEvent::DuplicateMessage)]
    );
    node.register_authority_pubkey(address(9), vec![9]);
    let no_validator = node.handle_wpoa_vote(address(9), hash(1), 1, sig(), valid());
    assert_eq!(no_validator.decision, VoteDecision::Ignore);
}

#[test]
fn votes_against_a_finalized_block_are_refused() {
    let mut node = setup_node(&[(1, 1)]);
    node.finality.set_finalized_direct(1, hash(BLOCK));
    start_round(&mut node, 1, hash(SIDE));
    assert_eq!(
        vote(&mut node, 1, hash(SIDE), Ok(())),
        VoteDecision::Reject(Some(PeerEvent::InvalidProofPayload))
    );
}

#[test]
fn fast_finalize_rejects_certificate_sig_type_mismatch() {
    let mut node = setup_node(&[(1, 1)]);
    let mismatched = PQSignature::new(SignatureType::MlDsa65, vec![1, 2, 3]);
    assert!(!fast_finalize(
        &mut node,
        hash(BLOCK),
        &[(1, mismatched)],
        Ok(())
    ));
    assert!(node.commit_certificates.get(&hash(BLOCK)).is_none());
}

#[test]
fn fast_finalize_accepts_a_signer_with_a_rotated_key() {
    let mut node = setup_node(&[(1, 1)]);
    let mut table = Table::new();
    table.insert(
        address(1),
        PQSignature::new(SignatureType::MlDsa65, vec![1, 2, 3]),
    );
    let entries = Some(encode_commit_certificate(&table));
    let rotated = |verdict| {
        let mut evidence = Table::new();
        evidence.insert(
            address(1),
            SignerEvidence {
                inferred: None,
                verdict,
                ..valid()
            },
        );
        evidence
    };
    assert!(node
        .fast_finalize_with_certificate(
            1,
            hash(BLOCK),
            &entries,
            b"certificate",
            &rotated(Verdict::Invalid)
        )
        .is_none());
    let write = node
        .fast_finalize_with_certificate(
            1,
            hash(BLOCK),
            &entries,
            b"certificate",
            &rotated(Verdict::Valid),
        )
        .unwrap();
    assert!(node.finish_fast_finalize(1, hash(BLOCK), write, b"certificate".to_vec(), Ok(())));
    assert_eq!(node.finality.last_finalized_hash(), hash(BLOCK));
}

#[test]
fn fast_finalize_rejects_exactly_two_thirds_weight() {
    let mut node = setup_node(&[(1, 1), (2, 1), (3, 1)]);
    assert!(!fast_finalize(
        &mut node,
        hash(BLOCK),
        &[(1, sig()), (2, sig())],
        Ok(())
    ));
    assert_eq!(node.finality.last_finalized_number(), 0);
    assert!(node.commit_certificates.get(&hash(BLOCK)).is_none());
}

#[test]
fn fast_finalize_rejects_zero_total_validator_weight() {
    let mut node = setup_node(&[(1, 0)]);
    assert!(!fast_finalize(&mut node, hash(BLOCK), &[], Ok(())));
    assert_eq!(node.finality.last_finalized_number(), 0);
    assert!(node.commit_certificates.get(&hash(BLOCK)).is_none());
}

#[test]
fn fast_finalize_rejects_noncanonical_target() {
    let mut node = setup_node(&[(1, 1)]);
    assert!(!fast_finalize(&mut node, hash(SIDE), &[(1, sig())], Ok(())));
    assert_eq!(node.finality.last_finalized_number(), 0);
    assert_eq!(node.chain_store.get_finalized_number(), None);
    assert!(node.commit_certificates.get(&hash(SIDE)).is_none());
    assert_eq!(
        node.chain_store.get_block_hash_by_number(1),
        Some(hash(BLOCK))
    );
}

#[test]
fn fast_finalize_does_not_advance_volatile_state_on_atomic_write_failure() {
    let mut node = setup_node(&[(1, 1)]);
    assert!(!fast_finalize(
        &mut node,
        hash(BLOCK),
        &[(1, sig())],
        Err(failure("injected batch failure"))
    ));
    assert_eq!(node.finality.last_finalized_number(), 0);
    assert_eq!(node.chain_store.get_finalized_number(), None);
    assert!(node.commit_certificates.get(&hash(BLOCK)).is_none());

    assert!(fast_finalize(&mut node, hash(BLOCK), &[(1, sig())], Ok(())));
    assert_eq!(node.finality.last_finalized_number(), 1);
    assert_eq!(node.chain_store.get_finalized_number(), Some(1));
    assert!(node.commit_certificates.get(&hash(BLOCK)).is_some());
}

#[test]
fn fast_finalize_refuses_any_signature_that_does_not_count() {
    let mut node = setup_node(&[(1, 5), (2, 1)]);
    // The first signer alone has a quorum; one more that is no validator spoils it.
    assert!(!fast_finalize(
        &mut node,
        hash(BLOCK),
        &[(1, sig()), (8, sig())],
        Ok(())
    ));
    let mut table = Table::new();
    table.insert(address(1), sig());
    table.insert(address(2), sig());
    let entries = Some(encode_commit_certificate(&table));
    let mut evidence = Table::new();
    evidence.insert(address(1), valid());
    assert!(
        node.fast_finalize_with_certificate(1, hash(BLOCK), &entries, b"", &evidence)
            .is_none(),
        "a signature without evidence does not count"
    );
}

#[test]
fn fast_finalize_reads_certificates_of_the_older_form() {
    let node = setup_node(&[(1, 1)]);
    let mut evidence = Table::new();
    evidence.insert(address(1), valid());
    let signer = "01".repeat(32);
    let cert = format!("{{\"Address(0x{signer})\": \"010203\"}}");
    let write =
        node.fast_finalize_with_certificate(1, hash(BLOCK), &None, cert.as_bytes(), &evidence);
    assert_eq!(write.unwrap().finalized_number, Some(1));
    assert!(node
        .fast_finalize_with_certificate(1, hash(BLOCK), &None, b"not json", &evidence)
        .is_none());
}

#[test]
fn older_certificates_hold_hexadecimal_signatures() {
    let good = "0a".repeat(32);
    let cert = format!(
        "{{\"0x{good}\": \"DEADbeef\", \"0x{}\": \"xyz\", \"nobody\": \"00\"}}",
        "0b".repeat(32)
    );
    let signatures = decode_commit_certificate(&None, cert.as_bytes()).unwrap();
    assert_eq!(signatures.len(), 1);
    let signature = signatures.get(&address(0x0a)).unwrap();
    assert_eq!(signature.sig_type, SignatureType::Dilithium3);
    assert_eq!(signature.data, vec![0xde, 0xad, 0xbe, 0xef]);
    assert!(decode_commit_certificate(&None, b"[1]").is_none());
    assert!(decode_commit_certificate(&None, b"{\"a\": 1}").is_none());
}

#[test]
fn certificates_come_back_as_they_were_encoded() {
    let mut table = Table::new();
    table.insert(address(0xAB), PQSignature::new(SignatureType::MlDsa65, vec![7]));
    table.insert(address(2), PQSignature::new(SignatureType::Other(9), vec![]));
    let entries = encode_commit_certificate(&table);
    assert_eq!(entries[0].0, format!("0x{}", "ab".repeat(32)));
    let back = decode_commit_certificate(&Some(entries), b"").unwrap();
    assert_eq!(back.len(), 2);
    assert_eq!(back.get(&address(0xAB)).unwrap().data, vec![7]);
    assert_eq!(
        back.get(&address(2)).unwrap().sig_type,
        SignatureType::Other(9)
    );
}

#[test]
fn addresses_are_parsed_in_either_case() {
    let upper = format!("0x{}", "AB".repeat(32));
    assert_eq!(parse_address(&upper), Some(address(0xAB)));
    assert_eq!(parse_address(&"ab".repeat(32)), None);
    assert_eq!(parse_address("0xab"), None);
    assert_eq!(parse_address(""), None);
    assert_eq!(
        parse_certificate_signer(&format!("Address({upper})")),
        Some(address(0xAB))
    );
    assert_eq!(parse_certificate_signer(&format!("Address({upper}")), None);
}

#[test]
fn signer_faults_come_in_order() {
    let mut shown = SignerEvidence {
        key_known: false,
        inferred: None,
        allowed: false,
        verdict: Verdict::Failed {
            detail: "wrong key length".to_string(),
        },
    };
    let claimed = Some(SignatureType::MlDsa65);
    assert_eq!(check_signer(&shown, claimed), Some(SignerFault::UnknownKey));
    shown.key_known = true;
    assert_eq!(
        check_signer(&shown, claimed),
        Some(SignerFault::UnknownAlgorithm)
    );
    shown.inferred = Some(SignatureType::Dilithium3);
    assert_eq!(
        check_signer(&shown, claimed),
        Some(SignerFault::AlgorithmNotAllowed {
            algorithm: SignatureType::Dilithium3
        })
    );
    shown.allowed = true;
    assert_eq!(check_signer(&shown, claimed), Some(SignerFault::TagMismatch));
    assert_eq!(
        check_signer(&shown, None),
        Some(SignerFault::VerifierFailed {
            detail: "wrong key length".to_string()
        })
    );
    shown.verdict = Verdict::Invalid;
    assert_eq!(
        check_signer(&shown, None),
        Some(SignerFault::InvalidSignature)
    );
    shown.verdict = Verdict::Valid;
    assert_eq!(check_signer(&shown, None), None);
}

fn view_change(block_number: u64) -> ViewChangeMessage {
    ViewChangeMessage {
        chain_id: 1337,
        block_number,
        new_view: 0,
        highest_qc_hash: ShellHash::zero(),
        validator: address(1),
        signature: vec![1],
    }
}

#[test]
fn wpoa_view_change_propagates_head_lookup_failure() {
    let node = setup_node(&[(1, 1)]);
    let err = node
        .handle_wpoa_view_change(
            Err(failure("injected get failure")),
            &view_change(1),
            valid(),
        )
        .unwrap_err();
    assert!(
        matches!(err, NodeError::Storage(StorageError { detail }) if detail.contains("injected get failure"))
    );
}

#[test]
fn wpoa_view_change_rejects_max_head_height() {
    let node = setup_node(&[(1, 1)]);
    let err = node
        .handle_wpoa_view_change(Ok(Some(u64::MAX)), &view_change(u64::MAX), valid())
        .unwrap_err();
    assert!(err.message().contains("overflows u64"));
    assert_eq!(next_block_number(4), Ok(5));
}

#[test]
fn wpoa_view_change_is_counted_for_the_next_height_only() {
    let node = setup_node(&[(1, 2), (2, 3)]);
    assert_eq!(
        node.handle_wpoa_view_change(Ok(Some(1)), &view_change(2), valid()),
        Ok(5)
    );
    assert_eq!(
        node.handle_wpoa_view_change(Ok(None), &view_change(1), valid()),
        Ok(5)
    );
    assert_eq!(
        node.handle_wpoa_view_change(Ok(Some(1)), &view_change(1), valid()),
        Err(NodeError::ViewChangeHeight {
            got: 1,
            expected: 2
        })
    );
    let mut foreign = view_change(2);
    foreign.chain_id = 1;
    assert_eq!(
        node.handle_wpoa_view_change(Ok(Some(1)), &foreign, valid()),
        Err(NodeError::ViewChangeChainId {
            got_chain: 1,
            local_chain: 1337
        })
    );
    let mut stranger = view_change(2);
    stranger.validator = address(9);
    assert_eq!(
        node.handle_wpoa_view_change(Ok(Some(1)), &stranger, valid()),
        Err(NodeError::ViewChangeSigner {
            validator: address(9),
            fault: SignerFault::UnknownKey
        })
    );
    let disallowed = SignerEvidence {
        inferred: Some(SignatureType::SphincsSha2256f),
        allowed: false,
        ..valid()
    };
    assert_eq!(
        node.handle_wpoa_view_change(Ok(Some(1)), &view_change(2), disallowed)
            .unwrap_err()
            .message(),
        "view-change signature algorithm SphincsSha2256f not allowed"
    );
    let unreadable = SignerEvidence {
        verdict: Verdict::Failed {
            detail: "wrong key length".to_string(),
        },
        ..valid()
    };
    assert_eq!(
        node.handle_wpoa_view_change(Ok(Some(1)), &view_change(2), unreadable)
            .unwrap_err()
            .message(),
        "invalid view-change signature: wrong key length"
    );
}

#[test]
fn a_commit_certificate_finalizes_the_block_elsewhere() {
    let pairs = [(1, 2), (2, 1)];
    let mut here = setup_node(&pairs);
    start_round(&mut here, 1, hash(BLOCK));
    vote(&mut here, 1, hash(BLOCK), Ok(()));
    let step = here.handle_wpoa_vote(address(2), hash(BLOCK), 1, sig(), valid());
    let commit = step.commit.unwrap();
    let entries = Some(Node::encode_commit_certificate(&commit.signatures));

    let elsewhere = setup_node(&pairs);
    let mut evidence = Table::new();
    evidence.insert(address(1), valid());
    evidence.insert(address(2), valid());
    let write =
        elsewhere.fast_finalize_with_certificate(1, hash(BLOCK), &entries, b"", &evidence);
    assert_eq!(write.unwrap().finalized_number, Some(1));
}

#[test]
fn one_block_of_a_height_gathers_a_quorum() {
    let mut finality = FinalityState::new();
    for validator in 1..=3u8 {
        assert!(finality.record_attestation_weighted(hash(BLOCK), 1, address(validator), 1));
        assert!(
            !finality.record_attestation_weighted(hash(BLOCK), 1, address(validator), 1),
            "a validator counts once"
        );
        assert_eq!(
            finality.detect_equivocation(&hash(SIDE), 1, &address(validator)),
            Some(hash(BLOCK))
        );
    }
    assert_eq!(
        finality.detect_equivocation(&hash(SIDE), 1, &address(4)),
        None
    );
    assert!(finality.record_attestation_weighted(hash(SIDE), 1, address(4), 1));
    assert!(has_weighted_quorum(finality.attested_weight(&hash(BLOCK)), 4));
    assert!(!has_weighted_quorum(finality.attested_weight(&hash(SIDE)), 4));
}
