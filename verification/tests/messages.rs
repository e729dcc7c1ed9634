use shell_node::error::{NodeError, Segment, StarkError, StorageError};
use shell_node::node::{apply_pending_activations, ensure_local_proposer};
use shell_node::primitives::{Address, ShellHash};
use shell_node::rewards::{store_stark_artifacts, validate_stark_amendment_authentication};
use shell_node::signature::{SignatureType, SignerFault};

fn shown(n: u8) -> String {
    format!("0x{}", format!("{n:02x}").repeat(32))
}

fn hash(n: u8) -> ShellHash {
    ShellHash::from([n; 32])
}

#[test]
fn reorganization_messages() {
    let past = NodeError::ReorgPastFinalized {
        finalized: 10,
        ancestor: 5,
    };
    assert_eq!(
        past.message(),
        "cannot reorg past finalized block 10: ancestor is at 5"
    );
    let missing = NodeError::SegmentBlockMissing {
        segment: Segment::Preferred,
        hash: hash(0xAB),
    };
    assert_eq!(
        missing.message(),
        format!("preferred fork segment block not found: {}", shown(0xAB))
    );
    let broken = NodeError::SegmentHeightBroken {
        segment: Segment::New,
        hash: hash(1),
        expected: 6,
        got: 7,
    };
    assert_eq!(
        broken.message(),
        format!(
            "new_chain height continuity broken at {}: expected #6, got #7",
            shown(1)
        )
    );
}

#[test]
fn fork_messages() {
    let crosses = NodeError::ForkCrossesFinalized {
        preferred: hash(1),
        finalized: 9,
        finalized_hash: hash(2),
    };
    assert_eq!(
        crosses.message(),
        format!(
            "preferred fork {} crosses finalized block #9 ({})",
            shown(1),
            shown(2)
        )
    );
    assert_eq!(
        NodeError::ForkTooLong.message(),
        "preferred fork length exceeds preferred block number"
    );
}

#[test]
fn consensus_messages() {
    let storage = NodeError::Storage(StorageError {
        detail: "disk full".to_string(),
    });
    assert!(storage.message().ends_with("disk full"));
    let chain_id = NodeError::AttestationChainId {
        got_chain: 1,
        local_chain: 1337,
    };
    assert_eq!(
        chain_id.message(),
        "attestation chain_id 1 does not match local chain_id 1337"
    );
    let signer = NodeError::ViewChangeSigner {
        validator: Address::from([3u8; 32]),
        fault: SignerFault::UnknownKey,
    };
    assert_eq!(
        signer.message(),
        format!("unknown view-change validator: {}", shown(3))
    );
    let forged = NodeError::AttestationSigner {
        validator: Address::from([3u8; 32]),
        fault: SignerFault::InvalidSignature,
    };
    assert_eq!(
        forged.message(),
        "attestation signature verification failed"
    );
    let disallowed = NodeError::AttestationSigner {
        validator: Address::from([3u8; 32]),
        fault: SignerFault::AlgorithmNotAllowed {
            algorithm: SignatureType::Other(2),
        },
    };
    assert_eq!(
        disallowed.message(),
        "attestation signature algorithm Other(2) not allowed"
    );
    assert_eq!(SignatureType::MlDsa65.name(), "MlDsa65");
    let overflow = NodeError::NextHeightOverflow { number: u64::MAX };
    assert!(overflow.message().contains("18446744073709551615"));
    let validators = NodeError::TooManyValidators { count: 5, max: 4 };
    assert_eq!(
        validators.message(),
        "system tx produced validator set of size 5 exceeding max 4"
    );
}

#[test]
fn settlement_messages() {
    let too_few = StarkError::AmendmentTooFew { n_sigs: 7 };
    assert_eq!(
        too_few.message(),
        "STARK L1 amendment covers 7 tx entries; minimum is 512"
    );
    let range = StarkError::RangeEnd {
        start: 1,
        expected_end: 2,
        end: 3,
    };
    assert_eq!(
        range.message(),
        "STARK amendment range #1..=#2 does not end at declared block #3"
    );
    let frontier = StarkError::Frontier {
        layer: 2,
        frontier: 4,
        start: 5,
    };
    assert_eq!(
        frontier.message(),
        "STARK L2 amendment must start at frontier #4, got #5"
    );
    let lower = StarkError::LowerLayer {
        layer: 2,
        number: 8,
        current_layer: 0,
    };
    assert_eq!(
        lower.message(),
        "STARK L2 amendment requires block #8 to be compressed at L1, found L0"
    );
    let layer = StarkError::UnsupportedLayer { layer: 3 };
    assert_eq!(
        layer.message(),
        "STARK amendment layer 3 is not supported (max layer == 2)"
    );
}

#[test]
fn proof_binding_messages() {
    let failed = StarkError::ProofFailed {
        end: 9,
        detail: "constraint 3 does not hold".to_string(),
    };
    assert_eq!(
        failed.message(),
        "STARK proof verification failed for block #9: constraint 3 does not hold"
    );
    let unreadable = StarkError::L2SourceUndecodable {
        hash: hash(4),
        detail: "expected value at line 1 column 1".to_string(),
    };
    assert_eq!(
        unreadable.message(),
        format!(
            "STARK L2 proof binding: failed to deserialise source amendment for {}: expected value at line 1 column 1",
            shown(4)
        )
    );
    let recursive = StarkError::L2ProofFailed {
        detail: "root of proof 2 differs".to_string(),
    };
    assert_eq!(
        recursive.message(),
        "STARK L2 recursive proof verification failed: root of proof 2 differs"
    );
    assert_eq!(
        StarkError::L2NotImplemented { end: 9 }.message(),
        "STARK L2 recursive proof verifier is not implemented (block #9). Enable feature `stub-l2-verifier` only in non-production environments to bypass this check."
    );
    assert_eq!(
        StarkError::L2Undecodable { end: 9 }.message(),
        "STARK L2 proof_bytes for block #9 cannot be decoded as a RecursiveProof. Enable feature `stub-l2-verifier` only in non-production environments to bypass this check."
    );
}

#[test]
fn refusals_count_as_rejections_unless_a_source_cannot_be_had() {
    assert!(StarkError::NoSources.counts_as_rejection());
    assert!(StarkError::EmptyRangeProof { end: 1 }.counts_as_rejection());
    assert!(!StarkError::SourceMissing { hash: hash(1) }.counts_as_rejection());
    assert!(!StarkError::L2SourceMissing { hash: hash(1) }.counts_as_rejection());
    let unreadable = StarkError::L2SourceUndecodable {
        hash: hash(1),
        detail: "cut short".to_string(),
    };
    assert!(!unreadable.counts_as_rejection());
    assert!(!StarkError::UnsupportedLayer { layer: 3 }.counts_as_rejection());
}

#[test]
fn passed_on_failures_keep_their_detail() {
    assert_eq!(ensure_local_proposer(true), Ok(()));
    assert_eq!(ensure_local_proposer(false), Err(NodeError::NotProposer));

    assert_eq!(
        apply_pending_activations(7, "block import".to_string(), Ok(())),
        Ok(())
    );
    let failed =
        apply_pending_activations(7, "block import".to_string(), Err("disk full".to_string()));
    assert_eq!(
        failed.unwrap_err().message(),
        "algorithm activation at block 7 failed during block import: disk full"
    );

    assert_eq!(validate_stark_amendment_authentication(Ok(())), Ok(()));
    let forged = validate_stark_amendment_authentication(Err("bad key".to_string()));
    assert_eq!(
        forged.unwrap_err().message(),
        "STARK amendment prover authentication failed: bad key"
    );

    assert_eq!(store_stark_artifacts(9, Ok(2), Ok(())), Ok(2));
    let unreadable = store_stark_artifacts(9, Err("cycle".to_string()), Ok(()));
    assert_eq!(
        unreadable.unwrap_err().message(),
        "serialize STARK proof artifacts for block #9: cycle"
    );
    let unwritten = store_stark_artifacts(
        9,
        Ok(2),
        Err(StorageError {
            detail: "injected batch failure".to_string(),
        }),
    );
    assert!(unwritten
        .unwrap_err()
        .message()
        .contains("injected batch failure"));
}
