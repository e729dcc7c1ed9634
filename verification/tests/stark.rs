use shell_node::chain::{Block, ChainStore, Header, SignedTransaction, StoreOp};
use shell_node::error::{StarkError, StorageError};
use shell_node::primitives::{Address, ShellHash};
use shell_node::prover::L2StarkMode;
use shell_node::rewards::{
    build_stark_reward_tx, create_l2_job_from_trigger, decode_system_extra, encode_system_extra,
    feed_l2_scheduler_from_settlements, l1_source_blocks, l2_source_roots, root_low_half,
    stark_reward_value, stark_source_original_size, validate_stark_proof_source_binding,
    BindingEvidence, L2JobStatus, RecursiveCheck, U256,
};
use shell_node::stark::{ProofAmendment, StarkState, StoredProof, MIN_L1_STARK_TXS};

/// Stands for the root over no entries.
const EMPTY_ROOT: [u8; 32] = [0x0E; 32];

fn hash_at(number: u64) -> ShellHash {
    ShellHash::from([0xC0 + number as u8; 32])
}

fn tx(n: u8, signature_len: usize) -> SignedTransaction {
    SignedTransaction {
        hash: ShellHash::from([n; 32]),
        sender: Address::from([0xAA; 32]),
        nonce: u64::from(n),
        gas_limit: 21_000,
        signature_len,
    }
}

fn block_at(number: u64, transactions: Vec<SignedTransaction>) -> Block {
    let sig_entries = transactions.len() as u64;
    Block {
        hash: hash_at(number),
        header: Header {
            number,
            parent_hash: if number == 0 {
                ShellHash::zero()
            } else {
                hash_at(number - 1)
            },
            state_root: ShellHash::zero(),
            timestamp: number,
            gas_used: 0,
        },
        transactions,
        sig_entries,
    }
}

fn extend(chain: &mut ChainStore, stark: &mut StarkState, block: Block) -> ShellHash {
    let hash = block.hash;
    chain.apply(StoreOp::SetCanonical(block.header.number, hash));
    chain.apply(StoreOp::SetHead(hash));
    chain.put_block(block);
    stark.put_witness(hash, 256);
    hash
}

/// A genesis block and `count` empty blocks on it, all but the first with stored signatures.
fn witnessed_chain(count: u64) -> (ChainStore, StarkState, ShellHash, Vec<ShellHash>) {
    let mut chain = ChainStore::new(ShellHash::zero());
    let mut stark = StarkState::new();
    let genesis = block_at(0, vec![]);
    let genesis_hash = genesis.hash;
    chain.apply(StoreOp::SetCanonical(0, genesis_hash));
    chain.apply(StoreOp::SetHead(genesis_hash));
    chain.put_block(genesis);
    let hashes = (1..=count)
        .map(|number| extend(&mut chain, &mut stark, block_at(number, vec![])))
        .collect();
    (chain, stark, genesis_hash, hashes)
}

fn dummy_proof_amendment(layer: u32, original_size: u64, compressed_size: u64) -> ProofAmendment {
    ProofAmendment {
        block_hash: ShellHash::from([0x11; 32]),
        block_number: 7,
        range_start: Some(6),
        layer,
        covered: vec![ShellHash::from([0x66; 32]), ShellHash::from([0x77; 32])],
        n_sigs: if layer == 1 { MIN_L1_STARK_TXS } else { 2 },
        batch_root: [0x22; 32],
        proof_len: compressed_size as usize,
        compression_valid: 2 * compressed_size < original_size,
        prover: Address::from([0x44; 32]),
        original_size: Some(original_size),
        compressed_size: Some(compressed_size),
        size_bytes: 900,
    }
}

fn dummy_ordered_amendment(layer: u32, sources: Vec<ShellHash>, end_block: u64) -> ProofAmendment {
    ProofAmendment {
        block_hash: sources[sources.len() - 1],
        block_number: end_block,
        range_start: end_block
            .checked_add(1)
            .and_then(|end_plus_one| end_plus_one.checked_sub(sources.len() as u64)),
        layer,
        covered: sources,
        n_sigs: 0,
        batch_root: EMPTY_ROOT,
        proof_len: 0,
        compression_valid: true,
        prover: Address::from([0x44; 32]),
        original_size: Some(0),
        compressed_size: Some(0),
        size_bytes: 900,
    }
}

fn evidence() -> BindingEvidence {
    BindingEvidence {
        expected_root: EMPTY_ROOT,
        verified: Ok(()),
        aggregate_root: 0,
        check: RecursiveCheck::Verified,
    }
}

#[test]
fn imported_settlement_releases_bounded_pending_slot() {
    let mut stark = StarkState::new();
    let mut later = dummy_proof_amendment(1, 1_000, 400);
    later.block_hash = ShellHash::from([0x88; 32]);
    later.covered = vec![later.block_hash];
    stark.push_pending(dummy_proof_amendment(1, 1_000, 400));
    stark.push_pending(later);

    stark.remove_settled_pending(&vec![dummy_proof_amendment(1, 1_000, 400)]);

    let pending = stark.take_pending_stark_settlements();
    assert_eq!(pending.len(), 1);
    assert_eq!(pending[0].block_hash, ShellHash::from([0x88; 32]));
}

#[test]
fn taken_settlements_return_in_front() {
    let mut stark = StarkState::new();
    stark.push_pending(dummy_ordered_amendment(1, vec![hash_at(1)], 1));
    stark.push_pending(dummy_ordered_amendment(1, vec![hash_at(2)], 2));
    let taken = stark.take_pending_stark_settlements();
    stark.push_pending(dummy_ordered_amendment(1, vec![hash_at(3)], 3));
    stark.restore_pending_stark_settlements(taken);
    let order: Vec<u64> = stark
        .take_pending_stark_settlements()
        .iter()
        .map(|a| a.block_number)
        .collect();
    assert_eq!(order, vec![1, 2, 3]);
}

#[test]
fn settled_targets_of_the_first_layer_feed_the_second() {
    let mut stark = StarkState::new();
    stark.record_settled_sources(&vec![
        dummy_ordered_amendment(1, vec![hash_at(1), hash_at(2)], 2),
        dummy_ordered_amendment(2, vec![hash_at(3)], 3),
    ]);
    assert!(stark.has_settled_source(1, hash_at(1)));
    assert!(!stark.has_settled_source(2, hash_at(1)));
    assert!(stark.has_settled_source(2, hash_at(3)));
    assert!(stark.has_l2_input(&hash_at(2)));
    assert!(!stark.has_l2_input(&hash_at(1)));
    assert!(!stark.has_l2_input(&hash_at(3)));
}

#[test]
fn system_extra_roundtrips_stark_settlements() {
    let payload = b"{\"stark_settlements\":[]}".to_vec();
    let encoded = encode_system_extra(Some(payload.clone()));
    assert!(encoded.starts_with(b"shell:system-extra:v1:"));
    assert_eq!(decode_system_extra(&encoded), Some(payload));
    assert_eq!(decode_system_extra(&b"legacy extra data".to_vec()), None);
    assert_eq!(encode_system_extra(None), Vec::<u8>::new());
    assert_eq!(decode_system_extra(&vec![]), None);
}

#[test]
fn stark_reward_value_enforces_per_source_layer_mint_and_compression() {
    let (chain, _stark, _genesis, _hashes) = witnessed_chain(0);
    let l2 = dummy_proof_amendment(2, 1_000, 400);
    let invalid = dummy_proof_amendment(1, 1_000, 500);

    assert_eq!(
        stark_reward_value(&chain, &l2).unwrap(),
        U256::from_u128(50_000_000_000_000_000_000u128)
    );
    assert_eq!(
        stark_reward_value(&chain, &invalid),
        Err(StarkError::RewardCompression)
    );
}

#[test]
fn stark_reward_value_empty_source_blocks_get_minimum_reward() {
    let (chain, _stark, genesis_hash, hashes) = witnessed_chain(4);

    let amendment = dummy_ordered_amendment(
        1,
        vec![genesis_hash, hashes[0], hashes[1], hashes[2], hashes[3]],
        4,
    );

    let reward = stark_reward_value(&chain, &amendment).unwrap();
    const BASE: u128 = 100_000_000_000_000_000_000;
    assert_eq!(
        reward,
        U256::from_u128(BASE / 2),
        "all-empty range must return minimum reward (1 × L1 mint)"
    );
}

#[test]
fn stark_reward_value_is_mint_only_for_fee_paying_source_block() {
    let (mut chain, mut stark, genesis_hash, _) = witnessed_chain(0);
    let block_hash = extend(&mut chain, &mut stark, block_at(1, vec![tx(1, 3_309)]));
    let amendment = dummy_ordered_amendment(1, vec![genesis_hash, block_hash], 1);

    let reward = stark_reward_value(&chain, &amendment).unwrap();

    const BASE: u128 = 100_000_000_000_000_000_000;
    assert_eq!(reward, U256::from_u128(BASE / 2));
}

#[test]
fn stark_reward_is_gone_in_high_layers() {
    let (chain, _stark, _genesis, _) = witnessed_chain(0);
    let mut high = dummy_proof_amendment(66, 1_000, 400);
    high.n_sigs = 2;
    assert_eq!(stark_reward_value(&chain, &high).unwrap(), U256::from_u128(2));
    high.layer = 67;
    assert_eq!(stark_reward_value(&chain, &high).unwrap(), U256::from_u128(0));
    high.layer = u32::MAX;
    assert_eq!(stark_reward_value(&chain, &high).unwrap(), U256::from_u128(0));
}

#[test]
fn stark_reward_errors_name_their_cause() {
    let (chain, _stark, genesis_hash, _) = witnessed_chain(0);
    let mut few = dummy_ordered_amendment(1, vec![genesis_hash], 0);
    few.n_sigs = MIN_L1_STARK_TXS - 1;
    assert_eq!(
        stark_reward_value(&chain, &few),
        Err(StarkError::RewardTooFew { n_sigs: 511 })
    );
    let unknown = dummy_ordered_amendment(1, vec![genesis_hash, hash_at(9)], 1);
    assert_eq!(
        stark_reward_value(&chain, &unknown),
        Err(StarkError::RewardSourceMissing { hash: hash_at(9) })
    );
}

#[test]
fn stark_reward_tx_pays_the_prover() {
    let (chain, _stark, _genesis, _) = witnessed_chain(0);
    let mut amendment = dummy_proof_amendment(2, 1_000, 400);
    let params = build_stark_reward_tx(&chain, 1337, 20, 3, &amendment).unwrap();
    assert_eq!(params.recipient, Address::from([0x44; 32]));
    assert_eq!((params.chain_id, params.block_number, params.tx_index), (1337, 20, 3));
    assert_eq!((params.original_size, params.compressed_size), (1_000, 400));
    assert_eq!(params.source_hash, amendment.block_hash);
    assert_eq!(params.layer, 2);

    amendment.compressed_size = None;
    let params = build_stark_reward_tx(&chain, 1337, 20, 3, &amendment).unwrap();
    assert_eq!(params.compressed_size, 900);

    amendment.original_size = None;
    assert_eq!(
        build_stark_reward_tx(&chain, 1337, 20, 3, &amendment),
        Err(StarkError::MissingOriginalSize)
    );
}

#[test]
fn stark_l1_ordering_rejects_gap_before_frontier() {
    let (chain, stark, _genesis, hashes) = witnessed_chain(3);

    let gap = dummy_ordered_amendment(1, vec![hashes[1]], 2);
    let err = stark
        .validate_stark_amendment_ordering(&chain, &gap)
        .unwrap_err()
        .message();

    assert!(
        err.contains("frontier #0"),
        "expected frontier rejection, got {err}"
    );
}

#[test]
fn stark_settlement_sequence_rejects_gap_before_frontier() {
    let (chain, stark, _genesis, hashes) = witnessed_chain(2);

    let gap = dummy_ordered_amendment(1, vec![hashes[1]], 2);
    let err = stark
        .validate_stark_settlement_sequence(&chain, &vec![gap])
        .unwrap_err()
        .message();

    assert!(
        err.contains("frontier #0"),
        "expected sequence frontier rejection, got {err}"
    );
}

#[test]
fn stark_l1_ordering_accepts_next_frontier() {
    let (chain, mut stark, genesis_hash, hashes) = witnessed_chain(3);

    let first = dummy_ordered_amendment(1, vec![genesis_hash, hashes[0], hashes[1]], 2);
    stark
        .validate_stark_amendment_ordering(&chain, &first)
        .unwrap();
    stark.record_settled_sources(&vec![first]);

    let next = dummy_ordered_amendment(1, vec![hashes[2]], 3);
    stark
        .validate_stark_amendment_ordering(&chain, &next)
        .unwrap();
}

#[test]
fn stark_l1_ordering_counts_on_what_waits() {
    let (chain, mut stark, genesis_hash, hashes) = witnessed_chain(2);
    stark.push_pending(dummy_ordered_amendment(1, vec![genesis_hash, hashes[0]], 1));
    let next = dummy_ordered_amendment(1, vec![hashes[1]], 2);
    stark
        .validate_stark_amendment_ordering(&chain, &next)
        .unwrap();
    let again = dummy_ordered_amendment(1, vec![genesis_hash, hashes[0]], 1);
    assert_eq!(
        stark.validate_stark_amendment_ordering(&chain, &again),
        Err(StarkError::Overlap {
            number: 0,
            current_layer: 1
        })
    );
}

#[test]
fn stark_l2_ordering_requires_lower_layer_sources() {
    let (chain, mut stark, genesis_hash, hashes) = witnessed_chain(2);
    stark.record_settled_sources(&vec![dummy_ordered_amendment(
        1,
        vec![genesis_hash, hashes[0]],
        1,
    )]);

    let l2_with_gap = dummy_ordered_amendment(2, vec![genesis_hash, hashes[0], hashes[1]], 2);
    let err = stark
        .validate_stark_amendment_ordering(&chain, &l2_with_gap)
        .unwrap_err()
        .message();

    assert!(
        err.contains("requires block #2 to be compressed at L1"),
        "expected lower-layer gap rejection, got {err}"
    );
}

#[test]
fn stark_l2_ordering_rejects_mixed_l0_l1_sources() {
    let (chain, mut stark, genesis_hash, hashes) = witnessed_chain(2);
    stark.record_settled_sources(&vec![dummy_ordered_amendment(
        1,
        vec![genesis_hash, hashes[0]],
        1,
    )]);

    let mixed_l2 = dummy_ordered_amendment(2, vec![genesis_hash, hashes[0], hashes[1]], 2);
    let err = stark
        .validate_stark_amendment_ordering(&chain, &mixed_l2)
        .unwrap_err()
        .message();

    assert!(
        err.contains("requires block #2 to be compressed at L1"),
        "expected mixed-layer range rejection, got {err}"
    );
}

#[test]
fn l2_source_binding_rejects_unsettled_l1_source() {
    let (chain, mut stark, genesis_hash, hashes) = witnessed_chain(2);
    let l1_src = dummy_ordered_amendment(1, vec![genesis_hash, hashes[0]], 1);
    stark.put_proof(
        l1_src.block_hash,
        StoredProof::Decoded {
            layer: 1,
            batch_root: l1_src.batch_root,
        },
    );

    let l2 = dummy_ordered_amendment(2, vec![l1_src.block_hash, hashes[1]], 2);
    let err = validate_stark_proof_source_binding(&chain, &stark, &l2, &evidence())
        .unwrap_err()
        .message();
    assert!(
        err.contains("not yet settled"),
        "expected not-yet-settled rejection, got: {err}"
    );
}

/// A settled first-layer proof and a second-layer amendment over it alone.
fn settled_source() -> (ChainStore, StarkState, ProofAmendment, u128) {
    let (chain, mut stark, genesis_hash, hashes) = witnessed_chain(1);
    let l1_src = dummy_ordered_amendment(1, vec![genesis_hash, hashes[0]], 1);
    stark.put_proof(
        l1_src.block_hash,
        StoredProof::Decoded {
            layer: 1,
            batch_root: l1_src.batch_root,
        },
    );
    stark.record_settled_sources(&vec![l1_src]);
    let aggregate_root: u128 = 0x1234;
    let mut batch_root = [0u8; 32];
    batch_root[0..16].copy_from_slice(&aggregate_root.to_le_bytes());
    let mut l2 = dummy_ordered_amendment(2, vec![hashes[0]], 1);
    l2.range_start = Some(1);
    l2.n_sigs = 1;
    l2.proof_len = 128;
    l2.batch_root = batch_root;
    (chain, stark, l2, aggregate_root)
}

#[test]
fn l2_source_binding_rejects_invalid_proof_bytes_without_stub() {
    let (chain, stark, l2, aggregate_root) = settled_source();
    let shown = BindingEvidence {
        aggregate_root,
        check: RecursiveCheck::Undecodable,
        ..evidence()
    };
    let err = validate_stark_proof_source_binding(&chain, &stark, &l2, &shown);
    assert!(
        err.is_err(),
        "garbage proof_bytes must be a hard error, got Ok"
    );
    assert_eq!(err, Err(StarkError::L2Undecodable { end: 1 }));
}

#[test]
fn l2_source_binding_needs_a_verified_proof() {
    let (chain, stark, l2, aggregate_root) = settled_source();
    let shown = |check| BindingEvidence {
        aggregate_root,
        check,
        ..evidence()
    };
    let bind = |check| validate_stark_proof_source_binding(&chain, &stark, &l2, &shown(check));
    assert_eq!(bind(RecursiveCheck::Verified), Ok(()));
    assert_eq!(
        bind(RecursiveCheck::NotImplemented),
        Err(StarkError::L2NotImplemented { end: 1 })
    );
    let detail = "root of proof 2 differs".to_string();
    assert_eq!(
        bind(RecursiveCheck::Failed {
            detail: detail.clone()
        }),
        Err(StarkError::L2ProofFailed { detail })
    );
}

#[test]
fn l2_source_binding_checks_count_root_and_sources() {
    let (chain, mut stark, mut l2, aggregate_root) = settled_source();
    let shown = BindingEvidence {
        aggregate_root,
        ..evidence()
    };
    let inputs = l2_source_roots(&stark, &l2).unwrap();
    assert_eq!(inputs.l1_roots, vec![u128::from_le_bytes([0x0E; 16])]);
    assert_eq!((inputs.start_block, inputs.end_block), (1, 1));

    let other = BindingEvidence {
        aggregate_root: 7,
        ..evidence()
    };
    assert_eq!(
        validate_stark_proof_source_binding(&chain, &stark, &l2, &other),
        Err(StarkError::L2RootMismatch {
            expected_root: 7,
            got_root: aggregate_root
        })
    );
    l2.n_sigs = 2;
    assert_eq!(
        validate_stark_proof_source_binding(&chain, &stark, &l2, &shown),
        Err(StarkError::L2CountMismatch { n_sigs: 2, count: 1 })
    );
    let source = l2.covered[0];
    let detail = "expected value at line 1 column 1".to_string();
    stark.put_proof(
        source,
        StoredProof::Undecodable {
            detail: detail.clone(),
        },
    );
    assert_eq!(
        validate_stark_proof_source_binding(&chain, &stark, &l2, &shown),
        Err(StarkError::L2SourceUndecodable {
            hash: source,
            detail
        })
    );
    stark.put_proof(
        source,
        StoredProof::Decoded {
            layer: 2,
            batch_root: [0; 32],
        },
    );
    assert_eq!(
        validate_stark_proof_source_binding(&chain, &stark, &l2, &shown),
        Err(StarkError::L2SourceLayer {
            hash: source,
            layer: 2
        })
    );
    l2.covered = vec![hash_at(40)];
    assert_eq!(
        validate_stark_proof_source_binding(&chain, &stark, &l2, &shown),
        Err(StarkError::L2SourceMissing { hash: hash_at(40) })
    );
    l2.layer = 3;
    assert_eq!(
        validate_stark_proof_source_binding(&chain, &stark, &l2, &shown),
        Err(StarkError::UnsupportedLayer { layer: 3 })
    );
}

#[test]
fn root_low_half_is_little_endian() {
    let mut root = [0xFFu8; 32];
    root[0..16].copy_from_slice(&77u128.to_le_bytes());
    assert_eq!(root_low_half(&root), 77);
    assert_eq!(root_low_half(&[0xFF; 32]), u128::MAX);
}

#[test]
fn stark_settlement_sequence_allows_l2_after_l1_in_same_block() {
    let (chain, stark, genesis_hash, hashes) = witnessed_chain(1);

    let sources = vec![genesis_hash, hashes[0]];
    let l1 = dummy_ordered_amendment(1, sources.clone(), 1);
    let l2 = dummy_ordered_amendment(2, sources, 1);

    stark
        .validate_stark_settlement_sequence(&chain, &vec![l1, l2])
        .unwrap();
}

#[test]
fn disabled_l2_mode_does_not_feed_scheduler_or_create_jobs() {
    let mode = L2StarkMode::Disabled;
    let settlements: Vec<ProofAmendment> = (10u64..18)
        .map(|block| dummy_ordered_amendment(1, vec![ShellHash::from([block as u8; 32])], block))
        .collect();

    assert!(feed_l2_scheduler_from_settlements(&settlements, mode.is_enabled()).is_empty());
    let fed = feed_l2_scheduler_from_settlements(&settlements, L2StarkMode::Scaffold.is_enabled());
    assert_eq!(fed.len(), 8);
}

#[test]
fn l2_jobs_span_their_inputs() {
    let mut settlements: Vec<ProofAmendment> = (10u64..13)
        .map(|block| dummy_ordered_amendment(1, vec![hash_at(block)], block))
        .collect();
    settlements[1].layer = 2;
    let inputs = feed_l2_scheduler_from_settlements(&settlements, true);
    assert_eq!(inputs.len(), 2);
    assert_eq!(inputs[1].source_hash, hash_at(12));

    let job = create_l2_job_from_trigger(&inputs, 100, &Ok(false)).unwrap();
    assert_eq!(job.l1_source_hashes, vec![hash_at(10), hash_at(12)]);
    let mut half = [0u8; 32];
    half[..16].copy_from_slice(&[0x0E; 16]);
    assert_eq!(job.l1_batch_roots, vec![half; 2]);
    assert_eq!((job.start_block, job.end_block), (10, 12));
    assert_eq!(job.status, L2JobStatus::Ready);
    assert_eq!(job.aggregate_root, None);
    assert_eq!(job.last_error, None);
    assert_eq!(job.retry_count, 0);
    assert_eq!((job.created_at_block, job.updated_at_block), (100, 100));

    let empty = create_l2_job_from_trigger(&vec![], 100, &Ok(false)).unwrap();
    assert_eq!((empty.start_block, empty.end_block), (100, 100));
    assert!(create_l2_job_from_trigger(&inputs, 100, &Ok(true)).is_none());
    let unreadable = Err(StorageError {
        detail: "job lookup".to_string(),
    });
    assert!(create_l2_job_from_trigger(&inputs, 100, &unreadable).is_none());
}

#[test]
fn source_binding_rejects_wrong_n_sigs() {
    let (chain, stark, genesis_hash, hashes) = witnessed_chain(2);
    let mut bad = dummy_ordered_amendment(1, vec![genesis_hash, hashes[0], hashes[1]], 2);
    bad.batch_root = [0u8; 32];
    bad.n_sigs = 999; // wrong: the canonical entry count is 0
    bad.proof_len = 128;

    let err = validate_stark_proof_source_binding(&chain, &stark, &bad, &evidence())
        .unwrap_err()
        .message();
    assert!(
        err.contains("n_sigs"),
        "expected n_sigs mismatch error, got: {err}"
    );
}

#[test]
fn source_binding_rejects_wrong_batch_root() {
    let (chain, stark, genesis_hash, hashes) = witnessed_chain(1);
    let mut wrong_root = EMPTY_ROOT;
    wrong_root[0] ^= 0xFF;
    let mut bad = dummy_ordered_amendment(1, vec![genesis_hash, hashes[0]], 1);
    bad.batch_root = wrong_root;
    bad.proof_len = 128;

    let err = validate_stark_proof_source_binding(&chain, &stark, &bad, &evidence())
        .unwrap_err()
        .message();
    assert!(
        err.contains("batch_root_bytes"),
        "expected batch_root_bytes mismatch error, got: {err}"
    );
}

#[test]
fn source_binding_checks_the_proof_itself() {
    let (mut chain, mut stark, genesis_hash, _) = witnessed_chain(0);
    let mut empty = dummy_ordered_amendment(1, vec![genesis_hash], 0);
    assert_eq!(
        validate_stark_proof_source_binding(&chain, &stark, &empty, &evidence()),
        Ok(())
    );
    empty.proof_len = 1;
    assert_eq!(
        validate_stark_proof_source_binding(&chain, &stark, &empty, &evidence()),
        Err(StarkError::EmptyRangeProof { end: 0 })
    );

    let hash = extend(&mut chain, &mut stark, block_at(1, vec![tx(1, 3_309), tx(2, 3_309)]));
    let mut full = dummy_ordered_amendment(1, vec![genesis_hash, hash], 1);
    full.n_sigs = 2;
    full.proof_len = 64;
    assert_eq!(
        validate_stark_proof_source_binding(&chain, &stark, &full, &evidence()),
        Ok(())
    );
    let unverified = BindingEvidence {
        verified: Err("constraint 3 does not hold".to_string()),
        ..evidence()
    };
    assert_eq!(
        validate_stark_proof_source_binding(&chain, &stark, &full, &unverified),
        Err(StarkError::ProofFailed {
            end: 1,
            detail: "constraint 3 does not hold".to_string()
        })
    );
    full.covered = vec![hash_at(50)];
    assert_eq!(
        validate_stark_proof_source_binding(&chain, &stark, &full, &evidence()),
        Err(StarkError::SourceMissing { hash: hash_at(50) })
    );
}

#[test]
fn l1_proofs_are_over_the_covered_blocks_in_order() {
    let (chain, _, genesis_hash, hashes) = witnessed_chain(2);
    let amendment = dummy_ordered_amendment(1, vec![genesis_hash, hashes[0], hashes[1]], 2);
    let blocks = l1_source_blocks(&chain, &amendment).unwrap();
    let found: Vec<ShellHash> = blocks.iter().map(|block| block.hash).collect();
    assert_eq!(found, amendment.covered);
    assert_eq!(blocks[2].number(), 2);

    let gap = dummy_ordered_amendment(1, vec![genesis_hash, hash_at(50), hash_at(51)], 2);
    assert_eq!(
        l1_source_blocks(&chain, &gap).unwrap_err(),
        StarkError::SourceMissing { hash: hash_at(50) }
    );
}

#[test]
fn ordering_rejects_amendment_skipping_empty_canonical_block() {
    let (chain, stark, genesis_hash, hashes) = witnessed_chain(3);
    let skip_b2 = dummy_ordered_amendment(1, vec![genesis_hash, hashes[0], hashes[2]], 2);

    let err = stark
        .validate_stark_amendment_ordering(&chain, &skip_b2)
        .unwrap_err()
        .message();
    assert!(
        err.contains("not canonical"),
        "expected 'not canonical' rejection for skipped block, got: {err}"
    );
}

#[test]
fn ordering_accepts_range_with_empty_leading_blocks() {
    let (chain, stark, genesis_hash, hashes) = witnessed_chain(2);
    let amendment = dummy_ordered_amendment(1, vec![genesis_hash, hashes[0], hashes[1]], 2);

    stark
        .validate_stark_amendment_ordering(&chain, &amendment)
        .expect("ordering should accept a contiguous range of empty canonical blocks");
}

#[test]
fn ordering_errors_name_their_cause() {
    let (mut chain, stark, genesis_hash, hashes) = witnessed_chain(1);
    let check = |chain: &ChainStore, a: &ProofAmendment| {
        stark.validate_stark_amendment_ordering(chain, a)
    };
    let valid = || dummy_ordered_amendment(1, vec![genesis_hash, hashes[0]], 1);

    let mut a = valid();
    a.layer = 0;
    assert_eq!(check(&chain, &a), Err(StarkError::LayerZero));
    let mut a = valid();
    a.compression_valid = false;
    assert_eq!(check(&chain, &a), Err(StarkError::AmendmentCompression));
    let mut a = valid();
    a.n_sigs = 511;
    assert_eq!(
        check(&chain, &a),
        Err(StarkError::AmendmentTooFew { n_sigs: 511 })
    );
    let mut a = valid();
    a.covered = vec![];
    assert_eq!(check(&chain, &a), Err(StarkError::NoSources));
    let mut a = valid();
    a.block_hash = genesis_hash;
    assert_eq!(
        check(&chain, &a),
        Err(StarkError::TargetMismatch {
            target: genesis_hash
        })
    );
    let mut a = valid();
    a.range_start = None;
    assert_eq!(
        check(&chain, &a),
        Err(StarkError::RangeShort { end: 1, count: 2 })
    );
    let mut a = valid();
    a.range_start = Some(u64::MAX);
    assert_eq!(check(&chain, &a), Err(StarkError::RangeOverflow));
    let mut a = valid();
    a.range_start = Some(1);
    assert_eq!(
        check(&chain, &a),
        Err(StarkError::RangeEnd {
            start: 1,
            expected_end: 2,
            end: 1
        })
    );
    chain.apply(StoreOp::DeleteCanonical(1));
    assert_eq!(
        check(&chain, &valid()),
        Err(StarkError::MissingCanonical { number: 1 })
    );
    let phantom = hash_at(30);
    chain.apply(StoreOp::SetCanonical(1, phantom));
    let mut a = valid();
    a.covered = vec![genesis_hash, phantom];
    a.block_hash = phantom;
    assert_eq!(
        check(&chain, &a),
        Err(StarkError::NotCompressible { number: 1 })
    );
}

#[test]
fn frontier_moves_past_what_is_settled() {
    let (chain, mut stark, genesis_hash, hashes) = witnessed_chain(2);
    let none = shell_node::table::Table::new();
    assert_eq!(stark.first_canonical_block_below_layer(&chain, 1, &none), 0);
    stark.record_settled_sources(&vec![dummy_ordered_amendment(
        1,
        vec![genesis_hash, hashes[0]],
        1,
    )]);
    assert_eq!(stark.first_canonical_block_below_layer(&chain, 1, &none), 2);
    assert_eq!(stark.first_canonical_block_below_layer(&chain, 2, &none), 0);
    stark.record_settled_sources(&vec![dummy_ordered_amendment(1, vec![hashes[1]], 2)]);
    assert_eq!(stark.first_canonical_block_below_layer(&chain, 1, &none), 3);
}

#[test]
fn frontier_starts_where_it_was_noted() {
    let (chain, mut stark, _genesis, _hashes) = witnessed_chain(3);
    let none = shell_node::table::Table::new();
    stark.set_frontier(1, 2);
    assert_eq!(stark.first_canonical_block_below_layer(&chain, 1, &none), 2);
    stark.set_frontier(1, 9);
    assert_eq!(stark.first_canonical_block_below_layer(&chain, 1, &none), 4);
    assert_eq!(stark.first_canonical_block_below_layer(&chain, 2, &none), 0);
}

#[test]
fn empty_canonical_blocks_not_settled_until_stark_reward_accepted() {
    let (chain, mut stark, genesis_hash, hashes) = witnessed_chain(3);
    let all = vec![genesis_hash, hashes[0], hashes[1], hashes[2]];
    for hash in &all {
        assert!(
            !stark.has_settled_source(1, *hash),
            "block {hash:?} should not be settled before proof acceptance"
        );
    }

    let amendment = dummy_ordered_amendment(1, all.clone(), 3);
    stark.push_pending(amendment);
    let accepted = stark.take_pending_stark_settlements();
    stark
        .validate_stark_settlement_sequence(&chain, &accepted)
        .unwrap();
    stark.record_settled_sources(&accepted);

    for hash in &all {
        assert!(
            stark.has_settled_source(1, *hash),
            "empty block {hash:?} must be settled after StarkReward accepted"
        );
    }
}

#[test]
fn stark_source_original_size_uses_fallback_for_pruned_stub_block() {
    let (mut chain, mut stark, _genesis, _) = witnessed_chain(0);
    // After pruning, the transactions carry empty signatures.
    let source_hash = extend(&mut chain, &mut stark, block_at(1, vec![tx(1, 0)]));
    stark.delete_witness(&source_hash);
    let pruned_block = chain.get_block_by_hash(&source_hash).unwrap();
    assert!(!pruned_block.transactions.is_empty());
    let stub_bundle_size: u64 = 12;

    let original_size = stark_source_original_size(
        &stark,
        &source_hash,
        pruned_block,
        pruned_block.transactions.len(),
        Some(stub_bundle_size),
    );

    const ESTIMATED_DILITHIUM3_SIG_BYTES: u64 = 3_309;
    const ESTIMATED_REFERENCE_WITNESS_RLP_OVERHEAD_BYTES: u64 = 8;
    let expected = pruned_block.transactions.len() as u64
        * (ESTIMATED_DILITHIUM3_SIG_BYTES + ESTIMATED_REFERENCE_WITNESS_RLP_OVERHEAD_BYTES);

    assert_eq!(
        original_size, expected,
        "pruned stub blocks must use conservative fallback sizing"
    );
    assert!(
        original_size > stub_bundle_size,
        "fallback size must not undercount to stub witness bytes"
    );
}

#[test]
fn stark_source_original_size_prefers_what_is_stored() {
    let (mut chain, mut stark, _genesis, _) = witnessed_chain(0);
    let hash = extend(&mut chain, &mut stark, block_at(1, vec![tx(1, 3_309)]));
    let block = chain.get_block_by_hash(&hash).unwrap();
    assert_eq!(stark_source_original_size(&stark, &hash, block, 1, Some(4_000)), 256);
    assert_eq!(stark_source_original_size(&stark, &hash, block, 0, Some(4_000)), 0);
    stark.delete_witness(&hash);
    assert_eq!(stark_source_original_size(&stark, &hash, block, 1, Some(4_000)), 4_000);
    assert_eq!(stark_source_original_size(&stark, &hash, block, 3, None), 9_951);
}
