//! What can go wrong in the node.

use vstd::prelude::*;

use crate::primitives::{Address, ShellHash};
use crate::signature::SignerFault;
use crate::text;

verus! {

/// A failed access to the store.
#[derive(Debug, PartialEq, Eq)]
pub struct StorageError {
    /// What the store reported.
    pub detail: String,
}

/// Which run of blocks on top of a common ancestor.
#[derive(Clone, Copy, Debug, PartialEq, Eq)]
pub enum Segment {
    /// The chain that a reorganization rolls back.
    Old,
    /// The chain that a reorganization applies.
    New,
    /// The canonical blocks that adopting a fork would roll back.
    Rollback,
    /// The blocks of the fork to adopt.
    Preferred,
}

/// Why the node refuses or cannot do something.
#[derive(Debug, PartialEq, Eq)]
pub enum NodeError {
    /// The common ancestor lies below the finalized block.
    ReorgPastFinalized { finalized: u64, ancestor: u64 },
    /// The finalized height has no canonical block.
    FinalizedMappingMissing { finalized: u64 },
    /// The common ancestor at the finalized height is not the canonical block there.
    FinalizedAncestorMismatch { finalized: u64 },
    /// A height would not fit in a block number.
    SegmentHeightOverflow { segment: Segment },
    /// A block of a chain is not known.
    SegmentBlockMissing { segment: Segment, hash: ShellHash },
    /// A block of a chain does not stand at the height after its predecessor's.
    SegmentHeightBroken { segment: Segment, hash: ShellHash, expected: u64, got: u64 },
    /// A block of a chain does not name its predecessor as its parent.
    SegmentParentBroken {
        segment: Segment,
        hash: ShellHash,
        expected_parent: ShellHash,
        got_parent: ShellHash,
    },
    /// The common ancestor is not known.
    AncestorMissing { hash: ShellHash },
    /// The world state of a root cannot be opened.
    StateUnavailable { root: ShellHash },
    /// The chain has no head.
    NoGenesis,
    /// Fork choice has no score for the block that it prefers.
    ForkUnscored { preferred: ShellHash },
    /// The preferred block and the canonical head have no common ancestor.
    ForkNoAncestor { preferred: ShellHash, canonical: ShellHash },
    /// No block leads from the common ancestor to the preferred block.
    ForkPathEmpty { ancestor_hash: ShellHash, preferred: ShellHash },
    /// The fork has more blocks than the height of its tip allows.
    ForkTooLong,
    /// The two paths from the common ancestor put it at different heights.
    ForkPathsDisagree { ancestor_hash: ShellHash, ancestor_number: u64 },
    /// Adopting the fork would undo a finalized block.
    ForkCrossesFinalized { preferred: ShellHash, finalized: u64, finalized_hash: ShellHash },
    /// The common ancestor is not the canonical block of its height.
    ForkAncestorNotCanonical { ancestor_hash: ShellHash, ancestor_number: u64 },
    /// A block of a segment is not the one that its place asks for.
    SegmentContinuityBroken {
        segment: Segment,
        hash: ShellHash,
        expected_number: u64,
        expected_parent: ShellHash,
        got_hash: ShellHash,
        got_number: u64,
        got_parent: ShellHash,
    },
    /// The store failed.
    Storage(StorageError),
    /// This node does not propose blocks.
    NotProposer,
    /// The header of a block is not known.
    HeaderMissing { hash: ShellHash },
    /// An attestation could not be signed.
    SigningFailed { detail: String },
    /// An attestation names another height or parent than its block's header.
    AttestationTargetMismatch,
    /// An attestation is for another network.
    AttestationChainId { got_chain: u64, local_chain: u64 },
    /// The signature of an attestation does not count.
    AttestationSigner { validator: Address, fault: SignerFault },
    /// The attesting validator is not active.
    InactiveValidator { validator: Address },
    /// A validator attested to two blocks of one height.
    Equivocation { validator: Address, conflicting: ShellHash, height: u64 },
    /// A view change is for another height than the next one.
    ViewChangeHeight { got: u64, expected: u64 },
    /// A view change is for another network.
    ViewChangeChainId { got_chain: u64, local_chain: u64 },
    /// The signature of a view change does not count.
    ViewChangeSigner { validator: Address, fault: SignerFault },
    /// There is no height after this one.
    NextHeightOverflow { number: u64 },
    /// A system transaction left no validator.
    EmptyValidatorSet,
    /// A system transaction left more validators than there may be.
    TooManyValidators { count: usize, max: usize },
    /// A system transaction removed the account of the validator registry.
    RegistryAccountMissing,
    /// A system transaction updated an account that does not exist.
    UpdatedAccountMissing { address: Address },
    /// No more development snapshots can be held.
    SnapshotLimit,
    /// No snapshot id is left.
    SnapshotIdsExhausted,
    /// A block of a segment is not the canonical one of its height.
    SegmentNotCanonical { segment: Segment, hash: ShellHash, number: u64 },
    /// Algorithms that were due could not be activated.
    ActivationFailed { block_number: u64, phase: String, detail: String },
    /// The artifacts of a proof could not be serialized.
    ArtifactEncoding { block_number: u64, detail: String },
    /// An amendment is not authenticated by its prover.
    ProverAuthentication { detail: String },
}

/// Why a proof amendment is refused.
#[derive(Debug, PartialEq, Eq)]
pub enum StarkError {
    /// The layer of an amendment is zero.
    LayerZero,
    /// An amendment does not compress its sources enough.
    AmendmentCompression,
    /// A first-layer amendment covers too few signatures.
    AmendmentTooFew { n_sigs: usize },
    /// An amendment covers no source.
    NoSources,
    /// The last source of an amendment is not its target.
    TargetMismatch { target: ShellHash },
    /// The range of an amendment is shorter than its number of sources.
    RangeShort { end: u64, count: usize },
    /// The range of an amendment does not fit in block numbers.
    RangeOverflow,
    /// The range of an amendment does not end at its target.
    RangeEnd { start: u64, expected_end: u64, end: u64 },
    /// A height of the range has no canonical block.
    MissingCanonical { number: u64 },
    /// A source is not the canonical block of its height.
    NotCanonical { number: u64, canonical: ShellHash, hash: ShellHash },
    /// A source has nothing to compress.
    NotCompressible { number: u64 },
    /// A source has been compressed at this layer before.
    Overlap { number: u64, current_layer: u32 },
    /// A source has not been compressed at the layer below.
    LowerLayer { layer: u32, number: u64, current_layer: u32 },
    /// An amendment does not start where its layer has got to.
    Frontier { layer: u32, frontier: u64, start: u64 },
    /// A reward claim does not compress its sources enough.
    RewardCompression,
    /// A first-layer reward claim covers too few signatures.
    RewardTooFew { n_sigs: usize },
    /// A source of a reward claim is not known.
    RewardSourceMissing { hash: ShellHash },
    /// A reward claim does not say how large its sources were.
    MissingOriginalSize,
    /// There is no such layer.
    UnsupportedLayer { layer: u32 },
    /// A source of a proof is not known.
    SourceMissing { hash: ShellHash },
    /// A proof is over another number of signatures than its sources hold.
    CountMismatch { n_sigs: usize, entries: u64, start: u64, end: u64 },
    /// A proof is over other signatures than its sources hold.
    RootMismatch { start: u64, end: u64 },
    /// There is nothing to prove, and yet there is a proof.
    EmptyRangeProof { end: u64 },
    /// A proof does not hold.
    ProofFailed { end: u64, detail: String },
    /// A source of a second-layer proof has no first-layer proof.
    L2SourceMissing { hash: ShellHash },
    /// The first-layer proof of a source cannot be read.
    L2SourceUndecodable { hash: ShellHash, detail: String },
    /// The proof of a source is not of the first layer.
    L2SourceLayer { hash: ShellHash, layer: u32 },
    /// The first-layer proof of a source is not settled.
    L2SourceUnsettled { hash: ShellHash },
    /// A second-layer proof is over another number of proofs than it names.
    L2CountMismatch { n_sigs: usize, count: usize },
    /// A second-layer proof is over other proofs than it names.
    L2RootMismatch { expected_root: u128, got_root: u128 },
    /// Second-layer proofs cannot be verified.
    L2NotImplemented { end: u64 },
    /// A second-layer proof cannot be read.
    L2Undecodable { end: u64 },
    /// A second-layer proof does not hold.
    L2ProofFailed { detail: String },
}

impl Segment {
    /// What the segment is called.
    pub open spec fn label(self) -> Seq<char> {
        match self {
            Segment::Old => "old_chain"@,
            Segment::New => "new_chain"@,
            Segment::Rollback => "canonical rollback segment"@,
            Segment::Preferred => "preferred fork segment"@,
        }
    }

    /// What the segment is called, as text.
    pub fn name(self) -> (r: &'static str)
        ensures
            r@ == self.label(),
    {
        match self {
            Segment::Old => "old_chain",
            Segment::New => "new_chain",
            Segment::Rollback => "canonical rollback segment",
            Segment::Preferred => "preferred fork segment",
        }
    }
}

/// What is said of a fault in a validator's signature of an attestation.
pub open spec fn attestation_fault(fault: SignerFault, validator: Address) -> Seq<char> {
    match fault {
        SignerFault::UnknownKey => "unknown attestation validator: "@ + text::prefixed_hex(
            validator.bytes@,
        ),
        SignerFault::UnknownAlgorithm => "unknown attestation signature algorithm for validator "@
            + text::prefixed_hex(validator.bytes@),
        SignerFault::AlgorithmNotAllowed { algorithm } => "attestation signature algorithm "@
            + algorithm.label() + " not allowed"@,
        SignerFault::TagMismatch => "attestation signature algorithm mismatch"@,
        SignerFault::VerifierFailed { detail } => "invalid attestation signature: "@ + detail@,
        SignerFault::InvalidSignature => "attestation signature verification failed"@,
    }
}

fn attestation_fault_text(fault: &SignerFault, validator: &Address) -> (r: String)
    ensures
        r@ == attestation_fault(*fault, *validator),
{
    match fault {
        SignerFault::UnknownKey => {
            let mut out = "unknown attestation validator: ".to_owned();
            text::push_address(&mut out, validator);
            out
        },
        SignerFault::UnknownAlgorithm => {
            let mut out = "unknown attestation signature algorithm for validator ".to_owned();
            text::push_address(&mut out, validator);
            out
        },
        SignerFault::AlgorithmNotAllowed { algorithm } => {
            let mut out = "attestation signature algorithm ".to_owned();
            out.append(algorithm.name().as_str());
            out.append(" not allowed");
            out
        },
        SignerFault::TagMismatch => "attestation signature algorithm mismatch".to_owned(),
        SignerFault::VerifierFailed { detail } => {
            let mut out = "invalid attestation signature: ".to_owned();
            out.append(detail.as_str());
            out
        },
        SignerFault::InvalidSignature => "attestation signature verification failed".to_owned(),
    }
}

/// What is said of a fault in a validator's signature of a view change.
pub open spec fn view_change_fault(fault: SignerFault, validator: Address) -> Seq<char> {
    match fault {
        SignerFault::UnknownKey => "unknown view-change validator: "@ + text::prefixed_hex(
            validator.bytes@,
        ),
        SignerFault::UnknownAlgorithm => "unknown view-change signature algorithm for validator "@
            + text::prefixed_hex(validator.bytes@),
        SignerFault::AlgorithmNotAllowed { algorithm } => "view-change signature algorithm "@
            + algorithm.label() + " not allowed"@,
        SignerFault::TagMismatch => "view-change signature algorithm mismatch"@,
        SignerFault::VerifierFailed { detail } => "invalid view-change signature: "@ + detail@,
        SignerFault::InvalidSignature => "view-change signature verification failed"@,
    }
}

fn view_change_fault_text(fault: &SignerFault, validator: &Address) -> (r: String)
    ensures
        r@ == view_change_fault(*fault, *validator),
{
    match fault {
        SignerFault::UnknownKey => {
            let mut out = "unknown view-change validator: ".to_owned();
            text::push_address(&mut out, validator);
            out
        },
        SignerFault::UnknownAlgorithm => {
            let mut out = "unknown view-change signature algorithm for validator ".to_owned();
            text::push_address(&mut out, validator);
            out
        },
        SignerFault::AlgorithmNotAllowed { algorithm } => {
            let mut out = "view-change signature algorithm ".to_owned();
            out.append(algorithm.name().as_str());
            out.append(" not allowed");
            out
        },
        SignerFault::TagMismatch => "view-change signature algorithm mismatch".to_owned(),
        SignerFault::VerifierFailed { detail } => {
            let mut out = "invalid view-change signature: ".to_owned();
            out.append(detail.as_str());
            out
        },
        SignerFault::InvalidSignature => "view-change signature verification failed".to_owned(),
    }
}

impl NodeError {
    /// What the error says.
    pub open spec fn text(self) -> Seq<char> {
        match self {
            NodeError::ReorgPastFinalized { finalized, ancestor } =>
                "cannot reorg past finalized block "@ + text::decimal(finalized as nat)
                + ": ancestor is at "@ + text::decimal(ancestor as nat),
            NodeError::FinalizedMappingMissing { finalized } =>
                "cannot reorg from finalized block "@ + text::decimal(finalized as nat)
                + ": canonical mapping is missing"@,
            NodeError::FinalizedAncestorMismatch { finalized } =>
                "cannot reorg from non-canonical ancestor at finalized block "@
                + text::decimal(finalized as nat),
            NodeError::SegmentHeightOverflow { segment } => segment.label()
                + " height overflows block number space"@,
            NodeError::SegmentBlockMissing { segment, hash } => segment.label()
                + " block not found: "@ + text::prefixed_hex(hash.bytes@),
            NodeError::SegmentHeightBroken { segment, hash, expected, got } => segment.label()
                + " height continuity broken at "@ + text::prefixed_hex(hash.bytes@)
                + ": expected #"@ + text::decimal(expected as nat) + ", got #"@
                + text::decimal(got as nat),
            NodeError::SegmentParentBroken { segment, hash, expected_parent, got_parent } =>
                segment.label() + " parent continuity broken at "@ + text::prefixed_hex(hash.bytes@)
                + ": expected parent "@ + text::prefixed_hex(expected_parent.bytes@) + ", got "@
                + text::prefixed_hex(got_parent.bytes@),
            NodeError::AncestorMissing { hash } => "ancestor block not found: "@
                + text::prefixed_hex(hash.bytes@),
            NodeError::StateUnavailable { root } => "state root is not available: "@
                + text::prefixed_hex(root.bytes@),
            NodeError::NoGenesis => "no genesis block"@,
            NodeError::ForkUnscored { preferred } => "fork-choice preferred block "@
                + text::prefixed_hex(preferred.bytes@) + " has no score"@,
            NodeError::ForkNoAncestor { preferred, canonical } => "fork-choice preferred block "@
                + text::prefixed_hex(preferred.bytes@)
                + " has no common ancestor with canonical head "@
                + text::prefixed_hex(canonical.bytes@),
            NodeError::ForkPathEmpty { ancestor_hash, preferred } =>
                "fork-choice path from ancestor "@ + text::prefixed_hex(ancestor_hash.bytes@)
                + " to preferred block "@ + text::prefixed_hex(preferred.bytes@) + " is empty"@,
            NodeError::ForkTooLong => "preferred fork length exceeds preferred block number"@,
            NodeError::ForkPathsDisagree { ancestor_hash, ancestor_number } =>
                "fork-choice paths disagree on common ancestor "@
                + text::prefixed_hex(ancestor_hash.bytes@) + " at #"@
                + text::decimal(ancestor_number as nat),
            NodeError::ForkCrossesFinalized { preferred, finalized, finalized_hash } =>
                "preferred fork "@ + text::prefixed_hex(preferred.bytes@)
                + " crosses finalized block #"@ + text::decimal(finalized as nat) + " ("@
                + text::prefixed_hex(finalized_hash.bytes@) + ")"@,
            NodeError::ForkAncestorNotCanonical { ancestor_hash, ancestor_number } =>
                "fork ancestor "@ + text::prefixed_hex(ancestor_hash.bytes@)
                + " is not canonical at #"@ + text::decimal(ancestor_number as nat),
            NodeError::SegmentContinuityBroken {
                segment,
                hash,
                expected_number,
                expected_parent,
                got_hash,
                got_number,
                got_parent,
            } => segment.label() + " continuity broken at "@ + text::prefixed_hex(hash.bytes@)
                + ": expected hash "@ + text::prefixed_hex(hash.bytes@) + ", #"@
                + text::decimal(expected_number as nat) + " with parent "@
                + text::prefixed_hex(expected_parent.bytes@) + ", got hash "@
                + text::prefixed_hex(got_hash.bytes@) + ", #"@ + text::decimal(got_number as nat)
                + " with parent "@ + text::prefixed_hex(got_parent.bytes@),
            NodeError::Storage(e) => "storage error: "@ + e.detail@,
            NodeError::NotProposer => "this node is not the proposer"@,
            NodeError::HeaderMissing { hash } => "header not found for block "@
                + text::prefixed_hex(hash.bytes@)
                + " — cannot create attestation with correct parent_hash"@,
            NodeError::SigningFailed { detail } => "failed to sign attestation: "@ + detail@,
            NodeError::AttestationTargetMismatch =>
                "attestation target does not match stored block header"@,
            NodeError::AttestationChainId { got_chain, local_chain } => "attestation chain_id "@
                + text::decimal(got_chain as nat) + " does not match local chain_id "@
                + text::decimal(local_chain as nat),
            NodeError::AttestationSigner { validator, fault } => attestation_fault(
                fault,
                validator,
            ),
            NodeError::InactiveValidator { validator } => "unknown active attestation validator: "@
                + text::prefixed_hex(validator.bytes@),
            NodeError::Equivocation { validator, conflicting, height } =>
                "equivocation: validator "@ + text::prefixed_hex(validator.bytes@)
                + " already attested to "@ + text::prefixed_hex(conflicting.bytes@) + " at height "@
                + text::decimal(height as nat),
            NodeError::ViewChangeHeight { got, expected } => "view-change block_number "@
                + text::decimal(got as nat) + " does not match expected height "@
                + text::decimal(expected as nat),
            NodeError::ViewChangeChainId { got_chain, local_chain } => "view-change chain_id "@
                + text::decimal(got_chain as nat) + " does not match local chain_id "@
                + text::decimal(local_chain as nat),
            NodeError::ViewChangeSigner { validator, fault } => view_change_fault(
                fault,
                validator,
            ),
            NodeError::NextHeightOverflow { number } => "the block number after "@
                + text::decimal(number as nat) + " overflows u64"@,
            NodeError::EmptyValidatorSet => "system tx produced empty validator set"@,
            NodeError::TooManyValidators { count, max } =>
                "system tx produced validator set of size "@ + text::decimal(count as nat)
                + " exceeding max "@ + text::decimal(max as nat),
            NodeError::RegistryAccountMissing => "system tx removed validator registry account"@,
            NodeError::UpdatedAccountMissing { address } => "system tx updated missing account "@
                + text::prefixed_hex(address.bytes@),
            NodeError::SnapshotLimit => "dev snapshot limit reached (128)"@,
            NodeError::SnapshotIdsExhausted => "dev snapshot ID space exhausted"@,
            NodeError::ActivationFailed { block_number, phase, detail } =>
                "algorithm activation at block "@ + text::decimal(block_number as nat)
                + " failed during "@ + phase@ + ": "@ + detail@,
            NodeError::ArtifactEncoding { block_number, detail } =>
                "serialize STARK proof artifacts for block #"@ + text::decimal(block_number as nat)
                + ": "@ + detail@,
            NodeError::ProverAuthentication { detail } =>
                "STARK amendment prover authentication failed: "@ + detail@,
            NodeError::SegmentNotCanonical { segment, hash, number } => segment.label() + " block "@
                + text::prefixed_hex(hash.bytes@) + " is not canonical at #"@
                + text::decimal(number as nat),
        }
    }

    /// What the error says, as text.
    pub fn message(&self) -> (r: String)
        ensures
            r@ == self.text(),
    {
        let mut out: String;
        match self {
            NodeError::ReorgPastFinalized { finalized, ancestor } => {
                out = "cannot reorg past finalized block ".to_owned();
                text::push_decimal(&mut out, *finalized);
                out.append(": ancestor is at ");
                text::push_decimal(&mut out, *ancestor);
            },
            NodeError::FinalizedMappingMissing { finalized } => {
                out = "cannot reorg from finalized block ".to_owned();
                text::push_decimal(&mut out, *finalized);
                out.append(": canonical mapping is missing");
            },
            NodeError::FinalizedAncestorMismatch { finalized } => {
                out = "cannot reorg from non-canonical ancestor at finalized block ".to_owned();
                text::push_decimal(&mut out, *finalized);
            },
            NodeError::SegmentHeightOverflow { segment } => {
                out = segment.name().to_owned();
                out.append(" height overflows block number space");
            },
            NodeError::SegmentBlockMissing { segment, hash } => {
                out = segment.name().to_owned();
                out.append(" block not found: ");
                text::push_hash(&mut out, hash);
            },
            NodeError::SegmentHeightBroken { segment, hash, expected, got } => {
                out = segment.name().to_owned();
                out.append(" height continuity broken at ");
                text::push_hash(&mut out, hash);
                out.append(": expected #");
                text::push_decimal(&mut out, *expected);
                out.append(", got #");
                text::push_decimal(&mut out, *got);
            },
            NodeError::SegmentParentBroken { segment, hash, expected_parent, got_parent } => {
                out = segment.name().to_owned();
                out.append(" parent continuity broken at ");
                text::push_hash(&mut out, hash);
                out.append(": expected parent ");
                text::push_hash(&mut out, expected_parent);
                out.append(", got ");
                text::push_hash(&mut out, got_parent);
            },
            NodeError::AncestorMissing { hash } => {
                out = "ancestor block not found: ".to_owned();
                text::push_hash(&mut out, hash);
            },
            NodeError::StateUnavailable { root } => {
                out = "state root is not available: ".to_owned();
                text::push_hash(&mut out, root);
            },
            NodeError::NoGenesis => {
                out = "no genesis block".to_owned();
            },
            NodeError::ForkUnscored { preferred } => {
                out = "fork-choice preferred block ".to_owned();
                text::push_hash(&mut out, preferred);
                out.append(" has no score");
            },
            NodeError::ForkNoAncestor { preferred, canonical } => {
                out = "fork-choice preferred block ".to_owned();
                text::push_hash(&mut out, preferred);
                out.append(" has no common ancestor with canonical head ");
                text::push_hash(&mut out, canonical);
            },
            NodeError::ForkPathEmpty { ancestor_hash, preferred } => {
                out = "fork-choice path from ancestor ".to_owned();
                text::push_hash(&mut out, ancestor_hash);
                out.append(" to preferred block ");
                text::push_hash(&mut out, preferred);
                out.append(" is empty");
            },
            NodeError::ForkTooLong => {
                out = "preferred fork length exceeds preferred block number".to_owned();
            },
            NodeError::ForkPathsDisagree { ancestor_hash, ancestor_number } => {
                out = "fork-choice paths disagree on common ancestor ".to_owned();
                text::push_hash(&mut out, ancestor_hash);
                out.append(" at #");
                text::push_decimal(&mut out, *ancestor_number);
            },
            NodeError::ForkCrossesFinalized { preferred, finalized, finalized_hash } => {
                out = "preferred fork ".to_owned();
                text::push_hash(&mut out, preferred);
                out.append(" crosses finalized block #");
                text::push_decimal(&mut out, *finalized);
                out.append(" (");
                text::push_hash(&mut out, finalized_hash);
                out.append(")");
            },
            NodeError::ForkAncestorNotCanonical { ancestor_hash, ancestor_number } => {
                out = "fork ancestor ".to_owned();
                text::push_hash(&mut out, ancestor_hash);
                out.append(" is not canonical at #");
                text::push_decimal(&mut out, *ancestor_number);
            },
            NodeError::SegmentContinuityBroken {
                segment,
                hash,
                expected_number,
                expected_parent,
                got_hash,
                got_number,
                got_parent,
            } => {
                out = segment.name().to_owned();
                out.append(" continuity broken at ");
                text::push_hash(&mut out, hash);
                out.append(": expected hash ");
                text::push_hash(&mut out, hash);
                out.append(", #");
                text::push_decimal(&mut out, *expected_number);
                out.append(" with parent ");
                text::push_hash(&mut out, expected_parent);
                out.append(", got hash ");
                text::push_hash(&mut out, got_hash);
                out.append(", #");
                text::push_decimal(&mut out, *got_number);
                out.append(" with parent ");
                text::push_hash(&mut out, got_parent);
            },
            NodeError::Storage(e) => {
                out = "storage error: ".to_owned();
                out.append(e.detail.as_str());
            },
            NodeError::NotProposer => {
                out = "this node is not the proposer".to_owned();
            },
            NodeError::HeaderMissing { hash } => {
                out = "header not found for block ".to_owned();
                text::push_hash(&mut out, hash);
                out.append(" — cannot create attestation with correct parent_hash");
            },
            NodeError::SigningFailed { detail } => {
                out = "failed to sign attestation: ".to_owned();
                out.append(detail.as_str());
            },
            NodeError::AttestationTargetMismatch => {
                out = "attestation target does not match stored block header".to_owned();
            },
            NodeError::AttestationChainId { got_chain, local_chain } => {
                out = "attestation chain_id ".to_owned();
                text::push_decimal(&mut out, *got_chain);
                out.append(" does not match local chain_id ");
                text::push_decimal(&mut out, *local_chain);
            },
            NodeError::AttestationSigner { validator, fault } => {
                out = attestation_fault_text(fault, validator);
            },
            NodeError::InactiveValidator { validator } => {
                out = "unknown active attestation validator: ".to_owned();
                text::push_address(&mut out, validator);
            },
            NodeError::Equivocation { validator, conflicting, height } => {
                out = "equivocation: validator ".to_owned();
                text::push_address(&mut out, validator);
                out.append(" already attested to ");
                text::push_hash(&mut out, conflicting);
                out.append(" at height ");
                text::push_decimal(&mut out, *height);
            },
            NodeError::ViewChangeHeight { got, expected } => {
                out = "view-change block_number ".to_owned();
                text::push_decimal(&mut out, *got);
                out.append(" does not match expected height ");
                text::push_decimal(&mut out, *expected);
            },
            NodeError::ViewChangeChainId { got_chain, local_chain } => {
                out = "view-change chain_id ".to_owned();
                text::push_decimal(&mut out, *got_chain);
                out.append(" does not match local chain_id ");
                text::push_decimal(&mut out, *local_chain);
            },
            NodeError::ViewChangeSigner { validator, fault } => {
                out = view_change_fault_text(fault, validator);
            },
            NodeError::NextHeightOverflow { number } => {
                out = "the block number after ".to_owned();
                text::push_decimal(&mut out, *number);
                out.append(" overflows u64");
            },
            NodeError::EmptyValidatorSet => {
                out = "system tx produced empty validator set".to_owned();
            },
            NodeError::TooManyValidators { count, max } => {
                out = "system tx produced validator set of size ".to_owned();
                text::push_decimal(&mut out, *count as u64);
                out.append(" exceeding max ");
                text::push_decimal(&mut out, *max as u64);
            },
            NodeError::RegistryAccountMissing => {
                out = "system tx removed validator registry account".to_owned();
            },
            NodeError::UpdatedAccountMissing { address } => {
                out = "system tx updated missing account ".to_owned();
                text::push_address(&mut out, address);
            },
            NodeError::SnapshotLimit => {
                out = "dev snapshot limit reached (128)".to_owned();
            },
            NodeError::SnapshotIdsExhausted => {
                out = "dev snapshot ID space exhausted".to_owned();
            },
            NodeError::ActivationFailed { block_number, phase, detail } => {
                out = "algorithm activation at block ".to_owned();
                text::push_decimal(&mut out, *block_number);
                out.append(" failed during ");
                out.append(phase.as_str());
                out.append(": ");
                out.append(detail.as_str());
            },
            NodeError::ArtifactEncoding { block_number, detail } => {
                out = "serialize STARK proof artifacts for block #".to_owned();
                text::push_decimal(&mut out, *block_number);
                out.append(": ");
                out.append(detail.as_str());
            },
            NodeError::ProverAuthentication { detail } => {
                out = "STARK amendment prover authentication failed: ".to_owned();
                out.append(detail.as_str());
            },
            NodeError::SegmentNotCanonical { segment, hash, number } => {
                out = segment.name().to_owned();
                out.append(" block ");
                text::push_hash(&mut out, hash);
                out.append(" is not canonical at #");
                text::push_decimal(&mut out, *number);
            },
        }
        out
    }
}

impl StarkError {
    /// Whether the error counts as the rejection of a settlement. It does not where a source cannot
    /// be had, nor where there is no such layer.
    pub fn counts_as_rejection(&self) -> (r: bool)
        ensures
            r == !(self is SourceMissing || self is L2SourceMissing || self is L2SourceUndecodable
                || self is UnsupportedLayer),
    {
        match self {
            StarkError::SourceMissing { .. } => false,
            StarkError::L2SourceMissing { .. } => false,
            StarkError::L2SourceUndecodable { .. } => false,
            StarkError::UnsupportedLayer { .. } => false,
            _ => true,
        }
    }

    /// What the error says.
    pub open spec fn text(self) -> Seq<char> {
        match self {
            StarkError::LayerZero => "STARK amendment layer must be at least 1"@,
            StarkError::AmendmentCompression =>
                "STARK amendment does not satisfy strict embedded compression threshold"@,
            StarkError::AmendmentTooFew { n_sigs } => "STARK L1 amendment covers "@
                + text::decimal(n_sigs as nat) + " tx entries; minimum is 512"@,
            StarkError::NoSources => "STARK amendment covers no canonical sources"@,
            StarkError::TargetMismatch { target } =>
                "STARK amendment final source hash must match proof target "@
                + text::prefixed_hex(target.bytes@),
            StarkError::RangeShort { end, count } => "STARK amendment range ending at #"@
                + text::decimal(end as nat) + " is shorter than its source count "@
                + text::decimal(count as nat),
            StarkError::RangeOverflow => "STARK amendment range overflows u64"@,
            StarkError::RangeEnd { start, expected_end, end } => "STARK amendment range #"@
                + text::decimal(start as nat) + "..=#"@ + text::decimal(expected_end as nat)
                + " does not end at declared block #"@ + text::decimal(end as nat),
            StarkError::MissingCanonical { number } =>
                "STARK amendment references missing canonical block #"@
                + text::decimal(number as nat),
            StarkError::NotCanonical { number, canonical, hash } => "STARK amendment source #"@
                + text::decimal(number as nat) + " is not canonical: expected "@
                + text::prefixed_hex(canonical.bytes@) + ", got "@
                + text::prefixed_hex(hash.bytes@),
            StarkError::NotCompressible { number } => "STARK amendment source #"@
                + text::decimal(number as nat) + " has no compressible witness/proof payload"@,
            StarkError::Overlap { number, current_layer } => "STARK amendment overlaps block #"@
                + text::decimal(number as nat) + " already compressed at layer "@
                + text::decimal(current_layer as nat),
            StarkError::LowerLayer { layer, number, current_layer } => "STARK L"@
                + text::decimal(layer as nat) + " amendment requires block #"@
                + text::decimal(number as nat) + " to be compressed at L"@
                + text::decimal(
                if layer > 0 {
                    (layer - 1) as nat
                } else {
                    0
                },
            ) + ", found L"@ + text::decimal(current_layer as nat),
            StarkError::Frontier { layer, frontier, start } => "STARK L"@
                + text::decimal(layer as nat) + " amendment must start at frontier #"@
                + text::decimal(frontier as nat) + ", got #"@ + text::decimal(start as nat),
            StarkError::RewardCompression =>
                "STARK reward claim does not satisfy strict compression threshold"@,
            StarkError::RewardTooFew { n_sigs } => "STARK L1 reward claim covers "@
                + text::decimal(n_sigs as nat) + " tx entries; minimum is 512"@,
            StarkError::RewardSourceMissing { hash } => "STARK reward source block not found: "@
                + text::prefixed_hex(hash.bytes@),
            StarkError::MissingOriginalSize => "STARK reward claim missing original_size"@,
            StarkError::UnsupportedLayer { layer } => "STARK amendment layer "@
                + text::decimal(layer as nat) + " is not supported (max layer == 2)"@,
            StarkError::SourceMissing { hash } => "STARK proof binding: source block "@
                + text::prefixed_hex(hash.bytes@) + " not found"@,
            StarkError::CountMismatch { n_sigs, entries, start, end } => "STARK proof n_sigs "@
                + text::decimal(n_sigs as nat) + " does not match reconstructed entry count "@
                + text::decimal(entries as nat) + " for source range #"@
                + text::decimal(start as nat) + "..=#"@ + text::decimal(end as nat),
            StarkError::RootMismatch { start, end } =>
                "STARK proof batch_root_bytes mismatch for source range #"@
                + text::decimal(start as nat) + "..=#"@ + text::decimal(end as nat),
            StarkError::EmptyRangeProof { end } => "empty STARK source range for block #"@
                + text::decimal(end as nat) + " must not carry proof bytes"@,
            StarkError::ProofFailed { end, detail } =>
                "STARK proof verification failed for block #"@ + text::decimal(end as nat) + ": "@
                + detail@,
            StarkError::L2SourceMissing { hash } =>
                "STARK L2 proof binding: source L1 amendment for "@
                + text::prefixed_hex(hash.bytes@) + " not found"@,
            StarkError::L2SourceUndecodable { hash, detail } =>
                "STARK L2 proof binding: failed to deserialise source amendment for "@
                + text::prefixed_hex(hash.bytes@) + ": "@ + detail@,
            StarkError::L2SourceLayer { hash, layer } => "STARK L2 amendment source "@
                + text::prefixed_hex(hash.bytes@) + " is layer "@ + text::decimal(layer as nat)
                + " (expected L1)"@,
            StarkError::L2SourceUnsettled { hash } => "STARK L2 amendment source "@
                + text::prefixed_hex(hash.bytes@) + " is not yet settled on L1 canonical chain"@,
            StarkError::L2CountMismatch { n_sigs, count } => "STARK L2 amendment n_sigs "@
                + text::decimal(n_sigs as nat) + " does not match source L1 proof count "@
                + text::decimal(count as nat),
            StarkError::L2RootMismatch { expected_root, got_root } =>
                "STARK L2 amendment aggregate_root mismatch: expected "@
                + text::decimal(expected_root as nat) + ", got "@ + text::decimal(got_root as nat),
            StarkError::L2NotImplemented { end } =>
                "STARK L2 recursive proof verifier is not implemented (block #"@
                + text::decimal(end as nat)
                + "). Enable feature `stub-l2-verifier` only in non-production environments to bypass this check."@,
            StarkError::L2Undecodable { end } => "STARK L2 proof_bytes for block #"@
                + text::decimal(end as nat)
                + " cannot be decoded as a RecursiveProof. Enable feature `stub-l2-verifier` only in non-production environments to bypass this check."@,
            StarkError::L2ProofFailed { detail } =>
                "STARK L2 recursive proof verification failed: "@ + detail@,
        }
    }

    /// What the error says, as text.
    pub fn message(&self) -> (r: String)
        ensures
            r@ == self.text(),
    {
        let mut out: String;
        match self {
            StarkError::LayerZero => {
                out = "STARK amendment layer must be at least 1".to_owned();
            },
            StarkError::AmendmentCompression => {
                out = "STARK amendment does not satisfy strict embedded compression threshold".to_owned();
            },
            StarkError::AmendmentTooFew { n_sigs } => {
                out = "STARK L1 amendment covers ".to_owned();
                text::push_decimal(&mut out, *n_sigs as u64);
                out.append(" tx entries; minimum is 512");
            },
            StarkError::NoSources => {
                out = "STARK amendment covers no canonical sources".to_owned();
            },
            StarkError::TargetMismatch { target } => {
                out = "STARK amendment final source hash must match proof target ".to_owned();
                text::push_hash(&mut out, target);
            },
            StarkError::RangeShort { end, count } => {
                out = "STARK amendment range ending at #".to_owned();
                text::push_decimal(&mut out, *end);
                out.append(" is shorter than its source count ");
                text::push_decimal(&mut out, *count as u64);
            },
            StarkError::RangeOverflow => {
                out = "STARK amendment range overflows u64".to_owned();
            },
            StarkError::RangeEnd { start, expected_end, end } => {
                out = "STARK amendment range #".to_owned();
                text::push_decimal(&mut out, *start);
                out.append("..=#");
                text::push_decimal(&mut out, *expected_end);
                out.append(" does not end at declared block #");
                text::push_decimal(&mut out, *end);
            },
            StarkError::MissingCanonical { number } => {
                out = "STARK amendment references missing canonical block #".to_owned();
                text::push_decimal(&mut out, *number);
            },
            StarkError::NotCanonical { number, canonical, hash } => {
                out = "STARK amendment source #".to_owned();
                text::push_decimal(&mut out, *number);
                out.append(" is not canonical: expected ");
                text::push_hash(&mut out, canonical);
                out.append(", got ");
                text::push_hash(&mut out, hash);
            },
            StarkError::NotCompressible { number } => {
                out = "STARK amendment source #".to_owned();
                text::push_decimal(&mut out, *number);
                out.append(" has no compressible witness/proof payload");
            },
            StarkError::Overlap { number, current_layer } => {
                out = "STARK amendment overlaps block #".to_owned();
                text::push_decimal(&mut out, *number);
                out.append(" already compressed at layer ");
                text::push_decimal(&mut out, *current_layer as u64);
            },
            StarkError::LowerLayer { layer, number, current_layer } => {
                out = "STARK L".to_owned();
                text::push_decimal(&mut out, *layer as u64);
                out.append(" amendment requires block #");
                text::push_decimal(&mut out, *number);
                out.append(" to be compressed at L");
                text::push_decimal(&mut out, if *layer > 0 {
                    (*layer - 1) as u64
                } else {
                    0
                });
                out.append(", found L");
                text::push_decimal(&mut out, *current_layer as u64);
            },
            StarkError::Frontier { layer, frontier, start } => {
                out = "STARK L".to_owned();
                text::push_decimal(&mut out, *layer as u64);
                out.append(" amendment must start at frontier #");
                text::push_decimal(&mut out, *frontier);
                out.append(", got #");
                text::push_decimal(&mut out, *start);
            },
            StarkError::RewardCompression => {
                out = "STARK reward claim does not satisfy strict compression threshold".to_owned();
            },
            StarkError::RewardTooFew { n_sigs } => {
                out = "STARK L1 reward claim covers ".to_owned();
                text::push_decimal(&mut out, *n_sigs as u64);
                out.append(" tx entries; minimum is 512");
            },
            StarkError::RewardSourceMissing { hash } => {
                out = "STARK reward source block not found: ".to_owned();
                text::push_hash(&mut out, hash);
            },
            StarkError::MissingOriginalSize => {
                out = "STARK reward claim missing original_size".to_owned();
            },
            StarkError::UnsupportedLayer { layer } => {
                out = "STARK amendment layer ".to_owned();
                text::push_decimal(&mut out, *layer as u64);
                out.append(" is not supported (max layer == 2)");
            },
            StarkError::SourceMissing { hash } => {
                out = "STARK proof binding: source block ".to_owned();
                text::push_hash(&mut out, hash);
                out.append(" not found");
            },
            StarkError::CountMismatch { n_sigs, entries, start, end } => {
                out = "STARK proof n_sigs ".to_owned();
                text::push_decimal(&mut out, *n_sigs as u64);
                out.append(" does not match reconstructed entry count ");
                text::push_decimal(&mut out, *entries);
                out.append(" for source range #");
                text::push_decimal(&mut out, *start);
                out.append("..=#");
                text::push_decimal(&mut out, *end);
            },
            StarkError::RootMismatch { start, end } => {
                out = "STARK proof batch_root_bytes mismatch for source range #".to_owned();
                text::push_decimal(&mut out, *start);
                out.append("..=#");
                text::push_decimal(&mut out, *end);
            },
            StarkError::EmptyRangeProof { end } => {
                out = "empty STARK source range for block #".to_owned();
                text::push_decimal(&mut out, *end);
                out.append(" must not carry proof bytes");
            },
            StarkError::ProofFailed { end, detail } => {
                out = "STARK proof verification failed for block #".to_owned();
                text::push_decimal(&mut out, *end);
                out.append(": ");
                out.append(detail.as_str());
            },
            StarkError::L2SourceMissing { hash } => {
                out = "STARK L2 proof binding: source L1 amendment for ".to_owned();
                text::push_hash(&mut out, hash);
                out.append(" not found");
            },
            StarkError::L2SourceUndecodable { hash, detail } => {
                out = "STARK L2 proof binding: failed to deserialise source amendment for ".to_owned();
                text::push_hash(&mut out, hash);
                out.append(": ");
                out.append(detail.as_str());
            },
            StarkError::L2SourceLayer { hash, layer } => {
                out = "STARK L2 amendment source ".to_owned();
                text::push_hash(&mut out, hash);
                out.append(" is layer ");
                text::push_decimal(&mut out, *layer as u64);
                out.append(" (expected L1)");
            },
            StarkError::L2SourceUnsettled { hash } => {
                out = "STARK L2 amendment source ".to_owned();
                text::push_hash(&mut out, hash);
                out.append(" is not yet settled on L1 canonical chain");
            },
            StarkError::L2CountMismatch { n_sigs, count } => {
                out = "STARK L2 amendment n_sigs ".to_owned();
                text::push_decimal(&mut out, *n_sigs as u64);
                out.append(" does not match source L1 proof count ");
                text::push_decimal(&mut out, *count as u64);
            },
            StarkError::L2RootMismatch { expected_root, got_root } => {
                out = "STARK L2 amendment aggregate_root mismatch: expected ".to_owned();
                text::push_wide_decimal(&mut out, *expected_root);
                out.append(", got ");
                text::push_wide_decimal(&mut out, *got_root);
            },
            StarkError::L2NotImplemented { end } => {
                out = "STARK L2 recursive proof verifier is not implemented (block #".to_owned();
                text::push_decimal(&mut out, *end);
                out.append(
                    "). Enable feature `stub-l2-verifier` only in non-production environments to bypass this check.",
                );
            },
            StarkError::L2Undecodable { end } => {
                out = "STARK L2 proof_bytes for block #".to_owned();
                text::push_decimal(&mut out, *end);
                out.append(
                    " cannot be decoded as a RecursiveProof. Enable feature `stub-l2-verifier` only in non-production environments to bypass this check.",
                );
            },
            StarkError::L2ProofFailed { detail } => {
                out = "STARK L2 recursive proof verification failed: ".to_owned();
                out.append(detail.as_str());
            },
        }
        out
    }
}

/// An error counts as the rejection of a settlement unless a source cannot be had or the layer does not
/// exist.
pub proof fn law_what_counts_as_a_rejection(error: StarkError, rejected: bool)
    requires
        call_ensures(StarkError::counts_as_rejection, (&error,), rejected),
    ensures
        error is SourceMissing || error is L2SourceMissing || error is L2SourceUndecodable || error
            is UnsupportedLayer ==> !rejected,
        error is ProofFailed || error is CountMismatch || error is RootMismatch || error
            is EmptyRangeProof || error is L2SourceLayer || error is L2SourceUnsettled || error
            is L2CountMismatch || error is L2RootMismatch || error is L2Undecodable || error
            is L2NotImplemented || error is L2ProofFailed ==> rejected,
{
}

} // verus!
