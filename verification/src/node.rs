//! The node: its parts, its startup, the messages of its peers, the validator set, and what waits
//! for deletion.

use vstd::prelude::*;

use crate::certificate;
use crate::chain::{ChainStore, ChainView, StoreOp};
use crate::dev::{self, DevState, DevView, Reverted, SnapshotView};
use crate::error::{NodeError, StorageError};
use crate::finality::{
    self, Attestation, AttestationDraft, AttestationRecord, AttestationStep, FinalityState,
    FinalityView,
};
use crate::fork::{self, ForkChoiceBlock, ForkChoiceSeed};
use crate::primitives::{Address, ShellHash};
use crate::prover::L2StarkMode;
use crate::pruning::{PruningConfig, StateRootTracker};
use crate::quorum;
use crate::retention;
use crate::signature::{PQSignature, SignerEvidence};
use crate::stark::{StarkState, StarkView, StoredProof};
use crate::table::Table;
use crate::votes::{
    self, Commit, FinalityWrite, RoundPhase, RoundView, ViewChangeMessage, VoteDecision, VoteStep,
    WPoaRound,
};

verus! {

/// Height of the head, or zero before the first block.
pub open spec fn head_number_of(view: ChainView) -> u64 {
    match view.head_block() {
        Some(head) => head.header.number,
        None => 0,
    }
}

/// Height of the head, or zero before the first block.
pub fn head_number(chain: &ChainStore) -> (r: u64)
    ensures
        r == head_number_of(chain@),
{
    match chain.get_head_block() {
        Some(head) => head.header.number,
        None => 0,
    }
}

/// Settings of a node.
#[derive(Clone, Copy, Debug)]
pub struct NodeConfig {
    /// The network.
    pub chain_id: u64,
    /// The account in whose name the node proposes and attests, if it does.
    pub proposer_address: Option<Address>,
    /// What data is kept.
    pub pruning: PruningConfig,
    /// Whether signatures are replaced by proofs.
    pub enable_stark_aggregation: bool,
    /// How far second-layer proving is switched on.
    pub l2_stark_mode: L2StarkMode,
    /// The most peers to connect to; zero sets no limit.
    pub max_peers: usize,
}

/// What the store of a node holds beside the chain index.
pub struct StoredState {
    /// The commit certificates, by block.
    pub commit_certificates: Table<ShellHash, Vec<u8>>,
    /// The proofs, by source, as far as they can be read.
    pub proofs: Table<ShellHash, StoredProof>,
    /// The sources whose signatures are stored, with their sizes in bytes.
    pub witnesses: Table<ShellHash, u64>,
    /// The targets of settled first-layer amendments.
    pub l2_inputs: Table<ShellHash, ()>,
}

impl StoredState {
    /// What a new store holds: nothing.
    pub fn empty() -> (r: Self)
        ensures
            r.commit_certificates@ == Map::<ShellHash, Vec<u8>>::empty(),
            r.proofs@ == Map::<ShellHash, StoredProof>::empty(),
            r.witnesses@ == Map::<ShellHash, u64>::empty(),
            r.l2_inputs@ == Map::<ShellHash, ()>::empty(),
    {
        StoredState {
            commit_certificates: Table::new(),
            proofs: Table::new(),
            witnesses: Table::new(),
            l2_inputs: Table::new(),
        }
    }
}

/// A node.
pub struct Node {
    /// Its settings.
    pub config: NodeConfig,
    /// The chain index.
    pub chain_store: ChainStore,
    /// The weights of the active validators.
    pub validator_weights: Table<Address, u64>,
    /// The registered public keys.
    pub known_authorities: Table<Address, Vec<u8>>,
    /// The stored commit certificates, by block.
    pub commit_certificates: Table<ShellHash, Vec<u8>>,
    /// The last finalized block, and the attestations towards the next one.
    pub finality: FinalityState,
    /// The consensus round in progress.
    pub wpoa_round: Option<WPoaRound>,
    /// The fork-choice tree.
    pub fork_choice: ForkChoiceSeed,
    /// The history of state roots.
    pub state_root_tracker: StateRootTracker,
    /// How many heights keep their canonical mapping.
    pub mapping_retention: u64,
    /// How many peers' capabilities are remembered.
    pub peer_capability_limit: usize,
    /// What is compressed, and what waits to be.
    pub stark: StarkState,
    /// Development-mode state.
    pub dev_state: DevState,
}

/// A round as a mathematical value.
pub open spec fn round_view(round: Option<WPoaRound>) -> Option<RoundView> {
    match round {
        Some(round) => Some(round@),
        None => None,
    }
}

/// Certificate entries as mathematical values.
pub open spec fn entries_view(entries: Option<Vec<(String, PQSignature)>>) -> Option<
    Seq<(Seq<char>, crate::signature::SignatureView)>,
> {
    match entries {
        Some(entries) => Some(certificate::entry_views(entries@)),
        None => None,
    }
}

impl Node {
    /// Whether two nodes agree on everything but finality, fork choice, the round in progress and
    /// what is written for them: the chain index and the certificates.
    pub open spec fn same_elsewhere(self, other: Node) -> bool {
        &&& self.config == other.config
        &&& self.validator_weights == other.validator_weights
        &&& self.known_authorities == other.known_authorities
        &&& self.state_root_tracker == other.state_root_tracker
        &&& self.mapping_retention == other.mapping_retention
        &&& self.peer_capability_limit == other.peer_capability_limit
        &&& self.stark == other.stark
        &&& self.dev_state == other.dev_state
    }

    /// Whether two nodes have the same chain index and the same certificates.
    pub open spec fn same_store(self, other: Node) -> bool {
        &&& self.chain_store == other.chain_store
        &&& self.commit_certificates == other.commit_certificates
    }

    /// What is known of a signer, given what checking its signature has shown: whether its key is
    /// registered, this node knows itself.
    pub open spec fn evidence_for(self, signer: Address, shown: SignerEvidence) -> SignerEvidence {
        SignerEvidence { key_known: self.known_authorities@.contains_key(signer), ..shown }
    }

    /// Creates a node on a chain index and on what else its store holds.
    ///
    /// Stored certificates, proofs, signatures and second-layer inputs are there again after a
    /// restart. Finality is recovered from the recorded height, and fork choice from the canonical
    /// chain above it. The settled sources are to be taken over by
    /// [`StarkState::restore_settled`]; no amendment waits. No limit on peers stands for
    /// `default_peer_records`.
    pub fn new(
        config: NodeConfig,
        chain_store: ChainStore,
        stored: StoredState,
        validator_weights: Table<Address, u64>,
        default_peer_records: usize,
    ) -> (r: Self)
        ensures
            r.config == config,
            r.chain_store == chain_store,
            r.validator_weights == validator_weights,
            r.known_authorities@ == Map::<Address, Vec<u8>>::empty(),
            r.commit_certificates == stored.commit_certificates,
            r.wpoa_round is None,
            r.state_root_tracker.settings() == config.pruning,
            r.state_root_tracker@.len() == 0,
            r.mapping_retention == retention::mapping_retention(
                config.pruning.body_retention,
                config.pruning.witness_retention,
            ),
            r.peer_capability_limit == if config.max_peers == 0 {
                default_peer_records
            } else {
                config.max_peers
            },
            r.finality@ == finality::recovered(chain_store@),
            (r.fork_choice.root_number, r.fork_choice.root_hash) == fork::restored_root(
                chain_store@,
                r.finality@.number,
                r.finality@.hash,
            ),
            r.fork_choice.root_finalized == (r.fork_choice.root_number > 0),
            r.fork_choice.root_weight == 0,
            r.fork_choice.blocks@ == fork::seed_blocks(
                r.fork_choice.root_number,
                r.fork_choice.root_hash,
                fork::canonical_run(
                    chain_store@,
                    r.fork_choice.root_number + 1,
                    head_number_of(chain_store@) as int,
                ),
            ),
            r.stark.pending().len() == 0,
            r.stark@ == (StarkView {
                settled: Set::empty(),
                proofs: stored.proofs@,
                witnesses: stored.witnesses@,
                frontiers: Map::empty(),
                l2_inputs: stored.l2_inputs@.dom(),
            }),
            r.dev_state@ == (DevView {
                next_block_timestamp: None,
                next_snapshot_id: 1,
                snapshots: Seq::empty(),
            }),
    {
        let finality = FinalityState::recover(&chain_store);
        let fork_choice = fork::restore_fork_choice(
            &chain_store,
            finality.last_finalized_number(),
            finality.last_finalized_hash(),
            head_number(&chain_store),
        );
        Node {
            config,
            chain_store,
            validator_weights,
            known_authorities: Table::new(),
            commit_certificates: stored.commit_certificates,
            finality,
            wpoa_round: None,
            fork_choice,
            state_root_tracker: StateRootTracker::new(config.pruning),
            mapping_retention: retention::canonical_mapping_retention(
                config.pruning.body_retention,
                config.pruning.witness_retention,
            ),
            peer_capability_limit: if config.max_peers == 0 {
                default_peer_records
            } else {
                config.max_peers
            },
            stark: StarkState::with_stored(stored.proofs, stored.witnesses, stored.l2_inputs),
            dev_state: DevState::new(),
        }
    }

    /// The lowest height whose canonical block still has its body, or zero where there is none.
    pub fn oldest_available_body_block(&self) -> (r: u64)
        ensures
            self.chain_store@.block_at(r) is Some || r == 0,
            forall|m: u64| m < r ==> (#[trigger] self.chain_store@.block_at(m)) is None,
            self.chain_store@.block_at(r) is None ==> forall|m: u64|
                (#[trigger] self.chain_store@.block_at(m)) is None,
    {
        match self.chain_store.oldest_canonical_body_number() {
            Some(number) => number,
            None => 0,
        }
    }

    /// The three lines of the startup banner, which say what data the node will retain.
    pub fn log_pruning_banner(&self) -> (r: Vec<String>)
        ensures
            r@.len() == 3,
            r@[0]@ == "╔═══ Shell Chain — Storage Policy ══════════════════════════════╗"@,
            r@[1]@ == retention::policy_line(
                self.config.pruning,
                self.config.enable_stark_aggregation,
            ),
            r@[2]@ == "║  "@ + retention::stark_text(
                self.config.pruning,
                self.config.enable_stark_aggregation,
            ),
    {
        retention::pruning_banner(&self.config.pruning, self.config.enable_stark_aggregation)
    }

    /// Registers the public key of an authority, in place of the one that it had.
    pub fn register_authority_pubkey(&mut self, address: Address, pubkey: Vec<u8>)
        ensures
            final(self).known_authorities@ == old(self).known_authorities@.insert(address, pubkey),
            final(self).finality == old(self).finality,
            final(self).wpoa_round == old(self).wpoa_round,
            final(self).same_store(*old(self)),
            final(self).config == old(self).config,
            final(self).validator_weights == old(self).validator_weights,
            final(self).fork_choice == old(self).fork_choice,
            final(self).state_root_tracker == old(self).state_root_tracker,
            final(self).mapping_retention == old(self).mapping_retention,
            final(self).peer_capability_limit == old(self).peer_capability_limit,
            final(self).stark == old(self).stark,
            final(self).dev_state == old(self).dev_state,
    {
        self.known_authorities.insert(address, pubkey);
    }

    /// Processes an attestation from the network; see [`finality::handle_attestation`]. Fork choice
    /// takes over the weight of the attested block. `shown` is what checking the signature with its
    /// validator's key has shown.
    pub fn handle_attestation(&mut self, attestation: &Attestation, shown: SignerEvidence) -> (r:
        Result<AttestationStep, NodeError>)
        ensures
            final(self).same_elsewhere(*old(self)),
            final(self).same_store(*old(self)),
            final(self).wpoa_round == old(self).wpoa_round,
            !old(self).chain_store@.blocks.contains_key(attestation.block_hash) ==> r == Ok::<
                AttestationStep,
                NodeError,
            >(AttestationStep::UnknownBlock) && final(self).finality@ == old(self).finality@ && final(
                self).fork_choice@ == old(self).fork_choice@,
            old(self).chain_store@.blocks.contains_key(attestation.block_hash)
                ==> match finality::attestation_error(
                old(self).chain_store@,
                old(self).finality@,
                *attestation,
                old(self).config.chain_id,
                old(self).evidence_for(attestation.validator, shown),
                old(self).validator_weights@,
            ) {
                Some(e) => r == Err::<AttestationStep, NodeError>(e) && final(self).finality@ == old(
                    self).finality@ && final(self).fork_choice@ == old(self).fork_choice@,
                None => {
                    &&& final(self).finality@ == old(self).finality@.with_record(
                        AttestationRecord {
                            block_hash: attestation.block_hash,
                            block_number: attestation.block_number,
                            validator: attestation.validator,
                            weight: old(self).validator_weights@[attestation.validator],
                        },
                    )
                    &&& final(self).fork_choice@ == old(self).fork_choice@.attested(
                        attestation.block_hash,
                        quorum::capped(final(self).finality@.attested(attestation.block_hash)),
                    )
                    &&& r == Ok::<AttestationStep, NodeError>(
                        AttestationStep::Counted {
                            attested_weight: quorum::capped(
                                final(self).finality@.attested(attestation.block_hash),
                            ),
                            finalizes: finality::is_finalizable(
                                old(self).chain_store@,
                                final(self).finality@,
                                attestation.block_hash,
                                attestation.block_number,
                                old(self).validator_weights.rows(),
                            ),
                        },
                    )
                },
            },
    {
        let evidence = SignerEvidence {
            key_known: self.known_authorities.contains_key(&attestation.validator),
            inferred: shown.inferred,
            allowed: shown.allowed,
            verdict: shown.verdict,
        };
        let step = finality::handle_attestation(
            &mut self.finality,
            &self.chain_store,
            attestation,
            self.config.chain_id,
            evidence,
            &self.validator_weights,
        );
        match &step {
            Ok(AttestationStep::Counted { attested_weight, finalizes: _ }) => {
                self.fork_choice.update_attested_weight(&attestation.block_hash, *attested_weight);
            },
            _ => {},
        }
        step
    }

    /// Moves finality to a block that an attestation has made final, once its height is written; see
    /// [`finality::finish_attestation`]. Fork choice is then rooted at the block.
    pub fn finish_attestation(
        &mut self,
        block_number: u64,
        block_hash: ShellHash,
        written: Result<(), StorageError>,
    ) -> (r: Result<bool, NodeError>)
        ensures
            final(self).same_elsewhere(*old(self)),
            final(self).wpoa_round == old(self).wpoa_round,
            final(self).commit_certificates == old(self).commit_certificates,
            match written {
                Ok(_) => {
                    &&& r == Ok::<bool, NodeError>(block_number > old(self).finality@.number)
                    &&& final(self).finality@ == old(self).finality@.advanced(
                        block_number,
                        block_hash,
                    )
                    &&& final(self).chain_store@ == old(self).chain_store@.apply(
                        StoreOp::SetFinalized(block_number),
                    )
                    &&& final(self).fork_choice@ == if block_number > old(self).finality@.number {
                        old(self).fork_choice@.finalized(block_hash, block_number)
                    } else {
                        old(self).fork_choice@
                    }
                },
                Err(e) => {
                    &&& r == Err::<bool, NodeError>(NodeError::Storage(e))
                    &&& final(self).finality@ == old(self).finality@
                    &&& final(self).chain_store@ == old(self).chain_store@
                    &&& final(self).fork_choice@ == old(self).fork_choice@
                },
            },
    {
        if written.is_ok() {
            self.chain_store.apply(StoreOp::SetFinalized(block_number));
        }
        let finished = finality::finish_attestation(
            &mut self.finality,
            block_number,
            block_hash,
            written,
        );
        if let Ok(true) = finished {
            self.fork_choice.finalize(block_hash, block_number);
        }
        finished
    }

    /// Adds a block to fork choice, with the weight attested to it and with whether it is final; see
    /// [`register_fork_choice_block`]. Returns whether it was added.
    pub fn add_fork_choice_block(
        &mut self,
        block_hash: ShellHash,
        parent_hash: ShellHash,
        block_number: u64,
    ) -> (r: bool)
        ensures
            final(self).same_elsewhere(*old(self)),
            final(self).same_store(*old(self)),
            final(self).finality == old(self).finality,
            final(self).wpoa_round == old(self).wpoa_round,
            r == !old(self).fork_choice@.contains(block_hash),
            final(self).fork_choice@ == old(self).fork_choice@.with_block(
                ForkChoiceBlock {
                    hash: block_hash,
                    parent_hash,
                    number: block_number,
                    attested_weight: quorum::capped(old(self).finality@.attested(block_hash)),
                    finalized: old(self).finality@.number >= block_number,
                },
            ),
    {
        let (attested_weight, finalized): (u64, bool) = register_fork_choice_block(
            &self.finality,
            &block_hash,
            block_number,
        );
        self.fork_choice.add_block(
            ForkChoiceBlock {
                hash: block_hash,
                parent_hash,
                number: block_number,
                attested_weight,
                finalized,
            },
        )
    }

    /// Returns to a development snapshot; see [`DevState::revert_inner`]. Finality becomes that of
    /// the snapshot, and the attestations towards the next block are forgotten.
    pub fn revert(&mut self, id: &str) -> (r: Result<Option<Reverted>, NodeError>)
        ensures
            final(self).config == old(self).config,
            final(self).validator_weights == old(self).validator_weights,
            final(self).known_authorities == old(self).known_authorities,
            final(self).commit_certificates == old(self).commit_certificates,
            final(self).wpoa_round == old(self).wpoa_round,
            final(self).fork_choice == old(self).fork_choice,
            final(self).state_root_tracker == old(self).state_root_tracker,
            final(self).mapping_retention == old(self).mapping_retention,
            final(self).peer_capability_limit == old(self).peer_capability_limit,
            final(self).stark == old(self).stark,
            final(self).dev_state@.wf(),
            ({
                let dev = old(self).dev_state@;
                let view = old(self).chain_store@;
                let number = dev::snapshot_id(id@);
                let found = number is Some && dev.holds(number->0);
                let snapshot = dev.snapshot(number->0);
                let back = view.apply_all(dev::revert_ops(view, snapshot));
                &&& !found ==> r == Ok::<Option<Reverted>, NodeError>(None) && final(
                    self).dev_state@ == dev && final(self).chain_store@ == view
                &&& found && view.head_block() is None ==> r == Err::<Option<Reverted>, NodeError>(
                    NodeError::NoGenesis,
                ) && final(self).dev_state@ == dev && final(self).chain_store@ == view
                &&& found && view.head_block() is Some && !view.state_roots.contains(
                    snapshot.state_root,
                ) ==> {
                    &&& r == Err::<Option<Reverted>, NodeError>(
                        NodeError::StateUnavailable { root: snapshot.state_root },
                    )
                    &&& final(self).chain_store@ == back
                    &&& final(self).dev_state@ == dev
                }
                &&& found && view.head_block() is Some && view.state_roots.contains(
                    snapshot.state_root,
                ) ==> {
                    &&& final(self).chain_store@ == back.apply(
                        StoreOp::SetWorldRoot(snapshot.state_root),
                    )
                    &&& final(self).dev_state@ == (DevView {
                        next_block_timestamp: snapshot.next_block_timestamp,
                        snapshots: dev.snapshots.filter(
                            |s: (u64, SnapshotView)| s.0 < number->0,
                        ),
                        ..dev
                    })
                    &&& r matches Ok(Some(reverted))
                    &&& reverted.finalized_number == snapshot.finalized_number
                    &&& reverted.finalized_hash == dev::finalized_hash_of(
                        back,
                        snapshot.finalized_number,
                    )
                    &&& reverted.pending_txs@ == snapshot.pending_txs
                    &&& final(self).finality@ == (FinalityView {
                        number: reverted.finalized_number,
                        hash: reverted.finalized_hash,
                        records: Seq::empty(),
                    })
                }
            }),
            !(r matches Ok(Some(_))) ==> final(self).finality@ == old(self).finality@,
    {
        let outcome = self.dev_state.revert_inner(&mut self.chain_store, id);
        if let Ok(Some(reverted)) = &outcome {
            self.finality = FinalityState::with_finalized(
                reverted.finalized_number,
                reverted.finalized_hash,
            );
        }
        outcome
    }


    /// Drafts this node's attestation to a block; see [`finality::attestation_draft`].
    pub fn attestation_draft(&self, block_hash: ShellHash, block_number: u64) -> (r: Result<
        AttestationDraft,
        NodeError,
    >)
        ensures
            r == if self.config.proposer_address is None {
                Err(NodeError::NotProposer)
            } else if !self.chain_store@.headers.contains_key(block_hash) {
                Err(NodeError::HeaderMissing { hash: block_hash })
            } else {
                Ok(
                    AttestationDraft {
                        chain_id: self.config.chain_id,
                        parent_hash: self.chain_store@.headers[block_hash].parent_hash,
                        block_hash,
                        block_number,
                        validator: self.config.proposer_address->0,
                        round: 0,
                    },
                )
            },
    {
        finality::attestation_draft(
            &self.chain_store,
            self.config.proposer_address,
            self.config.chain_id,
            block_hash,
            block_number,
        )
    }

    /// Creates this node's attestation to a block with what signing its draft came to.
    pub fn create_attestation(
        &self,
        block_hash: ShellHash,
        block_number: u64,
        signed: Result<Vec<u8>, String>,
    ) -> (r: Result<Attestation, NodeError>)
        ensures
            self.config.proposer_address is None ==> r == Err::<Attestation, NodeError>(
                NodeError::NotProposer,
            ),
            self.config.proposer_address is Some && !self.chain_store@.headers.contains_key(
                block_hash,
            ) ==> r == Err::<Attestation, NodeError>(NodeError::HeaderMissing { hash: block_hash }),
            self.config.proposer_address is Some && self.chain_store@.headers.contains_key(
                block_hash,
            ) ==> match signed {
                Ok(signature) => r == Ok::<Attestation, NodeError>(
                    Attestation {
                        chain_id: self.config.chain_id,
                        parent_hash: self.chain_store@.headers[block_hash].parent_hash,
                        block_hash,
                        block_number,
                        validator: self.config.proposer_address->0,
                        round: 0,
                        signature,
                    },
                ),
                Err(detail) => r == Err::<Attestation, NodeError>(
                    NodeError::SigningFailed { detail },
                ),
            },
    {
        match self.attestation_draft(block_hash, block_number) {
            Ok(draft) => finality::create_attestation(draft, signed),
            Err(e) => Err(e),
        }
    }

    /// Processes a vote from a peer; see [`votes::handle_wpoa_vote`]. `shown` is what checking its
    /// signature with the voter's key has shown.
    pub fn handle_wpoa_vote(
        &mut self,
        voter: Address,
        block_hash: ShellHash,
        block_number: u64,
        sig: PQSignature,
        shown: SignerEvidence,
    ) -> (r: VoteStep)
        ensures
            final(self).same_elsewhere(*old(self)),
            final(self).fork_choice == old(self).fork_choice,
            final(self).same_store(*old(self)),
            final(self).finality == old(self).finality,
            ({
                let before = round_view(old(self).wpoa_round);
                let rows = old(self).validator_weights.rows();
                let evidence = old(self).evidence_for(voter, shown);
                let decision = votes::vote_decision(
                    old(self).chain_store@,
                    old(self).finality@,
                    before,
                    rows,
                    voter,
                    block_hash,
                    block_number,
                    sig@,
                    evidence,
                );
                &&& r.decision == decision
                &&& votes::scored(r.events@, decision, voter, r.commit)
                &&& before is None ==> final(self).wpoa_round is None
                &&& before is Some ==> round_view(final(self).wpoa_round) == Some(
                    if decision == VoteDecision::Record {
                        votes::with_vote(before->0, rows, voter, sig@)
                    } else if votes::reaches_round(
                        old(self).chain_store@,
                        old(self).finality@,
                        before->0,
                        block_hash,
                        block_number,
                        sig@,
                        evidence,
                    ) {
                        RoundView { weights: rows, ..before->0 }
                    } else {
                        before->0
                    },
                )
                &&& decision != VoteDecision::Commit ==> r.commit is None
                &&& decision == VoteDecision::Commit ==> {
                    &&& r.commit matches Some(commit)
                    &&& commit.block_number == block_number
                    &&& commit.block_hash == block_hash
                    &&& certificate::signature_map(commit.signatures@) == before->0.votes.insert(
                        voter,
                        sig@,
                    )
                    &&& commit.write == votes::finality_write(
                        votes::is_local_block(old(self).chain_store@, block_number, block_hash),
                        old(self).finality@,
                        block_number,
                    )
                }
            }),
    {
        let evidence = SignerEvidence {
            key_known: self.known_authorities.contains_key(&voter),
            inferred: shown.inferred,
            allowed: shown.allowed,
            verdict: shown.verdict,
        };
        votes::handle_wpoa_vote(
            &self.chain_store,
            &self.finality,
            &mut self.wpoa_round,
            &self.validator_weights,
            voter,
            block_hash,
            block_number,
            sig,
            evidence,
        )
    }

    /// Completes a commit with the outcome of its write; see [`votes::finish_commit`]. `certificate`
    /// is the encoded certificate that was written. Returns whether the commit is complete.
    pub fn finish_commit(
        &mut self,
        commit: Commit,
        certificate: Vec<u8>,
        written: Result<(), StorageError>,
    ) -> (r: bool)
        ensures
            final(self).same_elsewhere(*old(self)),
            final(self).fork_choice == old(self).fork_choice,
            r == (old(self).wpoa_round is Some && (commit.write is None || written is Ok)),
            !r ==> final(self).same_store(*old(self)) && final(self).finality@ == old(
                self).finality@ && round_view(final(self).wpoa_round) == round_view(
                old(self).wpoa_round,
            ),
            r ==> round_view(final(self).wpoa_round) == Some(
                RoundView {
                    phase: RoundPhase::Committed,
                    votes: certificate::signature_map(commit.signatures@),
                    ..round_view(old(self).wpoa_round)->0
                },
            ),
            r && commit.write is None ==> final(self).same_store(*old(self)) && final(
                self).finality@ == old(self).finality@,
            r && commit.write is Some ==> {
                &&& final(self).finality@ == old(self).finality@.advanced(
                    commit.block_number,
                    commit.block_hash,
                )
                &&& final(self).commit_certificates@ == old(self).commit_certificates@.insert(
                    commit.block_hash,
                    certificate,
                )
                &&& final(self).chain_store@ == stored_finality(
                    old(self).chain_store@,
                    commit.write->0,
                )
            },
    {
        let block_hash = commit.block_hash;
        let write: Option<FinalityWrite> = commit.write;
        match &mut self.wpoa_round {
            None => {
                return false;
            },
            Some(round) => {
                if !votes::finish_commit(round, &mut self.finality, commit, written) {
                    return false;
                }
            },
        }
        match write {
            Some(write) => {
                store_finality(&mut self.chain_store, write);
                self.commit_certificates.insert(block_hash, certificate);
            },
            None => {},
        }
        true
    }

    /// The entries of a certificate over some signatures; see
    /// [`certificate::encode_commit_certificate`].
    pub fn encode_commit_certificate(signatures: &Table<Address, PQSignature>) -> (r: Vec<
        (String, PQSignature),
    >)
        ensures
            r@.len() == signatures.rows().len(),
            forall|i: int|
                0 <= i < r@.len() ==> (#[trigger] r@[i]).0@ == crate::text::prefixed_hex(
                    signatures.rows()[i].0.bytes@,
                ) && r@[i].1@ == signatures.rows()[i].1@,
            certificate::entries_map(certificate::entry_views(r@), r@.len())
                == certificate::signature_map(signatures@),
    {
        certificate::encode_commit_certificate(signatures)
    }

    /// Decides whether a certificate from a peer makes a block final, and what then has to be
    /// written together with it; see [`votes::fast_finalize_with_certificate`].
    ///
    /// `entries` are those that the certificate holds in the present form, if it has that form.
    pub fn fast_finalize_with_certificate(
        &self,
        block_number: u64,
        block_hash: ShellHash,
        entries: &Option<Vec<(String, PQSignature)>>,
        cert: &[u8],
        evidence: &Table<Address, SignerEvidence>,
    ) -> (r: Option<FinalityWrite>)
        ensures
            r == match certificate::decoded_certificate(entries_view(*entries), cert@) {
                None => None::<FinalityWrite>,
                Some(signatures) => if votes::certifies(
                    self.chain_store@,
                    self.validator_weights@,
                    self.validator_weights.rows(),
                    block_number,
                    block_hash,
                    signatures,
                    evidence@,
                ) {
                    votes::finality_write(true, self.finality@, block_number)
                } else {
                    None
                },
            },
    {
        match certificate::decode_commit_certificate(entries, cert) {
            None => None,
            Some(signatures) => votes::fast_finalize_with_certificate(
                &self.chain_store,
                &self.finality,
                &self.validator_weights,
                block_number,
                block_hash,
                &signatures,
                evidence,
            ),
        }
    }

    /// Completes a fast finalization with the outcome of its write. Returns whether the certificate
    /// was accepted.
    pub fn finish_fast_finalize(
        &mut self,
        block_number: u64,
        block_hash: ShellHash,
        write: FinalityWrite,
        cert: Vec<u8>,
        written: Result<(), StorageError>,
    ) -> (r: bool)
        ensures
            final(self).same_elsewhere(*old(self)),
            final(self).fork_choice == old(self).fork_choice,
            final(self).wpoa_round == old(self).wpoa_round,
            r == (written is Ok),
            !r ==> final(self).same_store(*old(self)) && final(self).finality@ == old(
                self).finality@,
            r ==> {
                &&& final(self).finality@ == old(self).finality@.advanced(block_number, block_hash)
                &&& final(self).commit_certificates@ == old(self).commit_certificates@.insert(
                    block_hash,
                    cert,
                )
                &&& final(self).chain_store@ == stored_finality(old(self).chain_store@, write)
            },
    {
        if !votes::finish_fast_finalize(&mut self.finality, block_number, block_hash, written) {
            return false;
        }
        store_finality(&mut self.chain_store, write);
        self.commit_certificates.insert(block_hash, cert);
        true
    }

    /// Decides whether a view-change message counts, and with which total weight it is to be
    /// counted; see [`votes::handle_wpoa_view_change`]. `head` is what reading the height of the head
    /// came to.
    pub fn handle_wpoa_view_change(
        &self,
        head: Result<Option<u64>, StorageError>,
        message: &ViewChangeMessage,
        shown: SignerEvidence,
    ) -> (r: Result<u64, NodeError>)
        ensures
            r == match votes::view_change_error(
                head,
                *message,
                self.config.chain_id,
                self.evidence_for(message.validator, shown),
            ) {
                Some(e) => Err::<u64, NodeError>(e),
                None => Ok(quorum::capped(quorum::weight_sum(self.validator_weights.rows()))),
            },
    {
        let evidence = SignerEvidence {
            key_known: self.known_authorities.contains_key(&message.validator),
            inferred: shown.inferred,
            allowed: shown.allowed,
            verdict: shown.verdict,
        };
        votes::handle_wpoa_view_change(
            head,
            message,
            self.config.chain_id,
            evidence,
            &self.validator_weights,
        )
    }
}

/// The chain index after what a commit asks for is written.
pub open spec fn stored_finality(view: ChainView, write: FinalityWrite) -> ChainView {
    match write.finalized_number {
        Some(number) => view.apply(StoreOp::SetFinalized(number)),
        None => view,
    }
}

fn store_finality(chain: &mut ChainStore, write: FinalityWrite)
    ensures
        final(chain)@ == stored_finality(old(chain)@, write),
{
    match write.finalized_number {
        Some(number) => {
            chain.apply(StoreOp::SetFinalized(number));
        },
        None => {},
    }
}

/// The weight of this node's own validator, where it is one and its weight is not zero.
pub fn local_validator_weight(
    proposer_address: Option<Address>,
    weights: &Table<Address, u64>,
) -> (r: Option<u64>)
    ensures
        r == match proposer_address {
            Some(proposer) => if weights@.contains_key(proposer) && weights@[proposer] > 0 {
                Some(weights@[proposer])
            } else {
                None
            },
            None => None,
        },
{
    match proposer_address {
        None => None,
        Some(proposer) => match weights.get(&proposer) {
            Some(weight) => if *weight > 0 {
                Some(*weight)
            } else {
                None
            },
            None => None,
        },
    }
}

/// Refuses to make a block out of turn: `is_proposer` says whether consensus lets this node propose
/// it.
pub fn ensure_local_proposer(is_proposer: bool) -> (r: Result<(), NodeError>)
    ensures
        is_proposer ==> r is Ok,
        !is_proposer ==> r == Err::<(), NodeError>(NodeError::NotProposer),
{
    if is_proposer {
        Ok(())
    } else {
        Err(NodeError::NotProposer)
    }
}

/// Passes on what activating the algorithms that are due at a block came to, in a phase of its
/// making.
pub fn apply_pending_activations(
    block_number: u64,
    phase: String,
    outcome: Result<(), String>,
) -> (r: Result<(), NodeError>)
    ensures
        match outcome {
            Ok(_) => r is Ok,
            Err(detail) => r == Err::<(), NodeError>(
                NodeError::ActivationFailed { block_number, phase, detail },
            ),
        },
{
    match outcome {
        Ok(()) => Ok(()),
        Err(detail) => Err(NodeError::ActivationFailed { block_number, phase, detail }),
    }
}

/// With which weight a block enters fork choice, and whether it is final there.
pub fn register_fork_choice_block(
    finality: &FinalityState,
    block_hash: &ShellHash,
    block_number: u64,
) -> (r: (u64, bool))
    ensures
        r.0 == crate::quorum::capped(finality@.attested(*block_hash)),
        r.1 == (finality@.number >= block_number),
{
    (finality.attested_weight(block_hash), finality.last_finalized_number() >= block_number)
}

/// The weights of some validators; of one that is named twice the last weight counts.
pub open spec fn weight_map(validators: Seq<Address>, weights: Seq<u64>, n: nat) -> Map<Address, u64>
    decreases n,
{
    if n == 0 {
        Map::empty()
    } else {
        weight_map(validators, weights, (n - 1) as nat).insert(validators[n - 1], weights[n - 1])
    }
}

/// The validator set to take over after a block, if any.
///
/// The set is taken over at the boundary of an epoch, or after every block where there are no
/// epochs. A registry without validators leaves the present set in place.
pub fn reload_authorities_if_boundary(
    epoch_length: u64,
    at_epoch_boundary: bool,
    validators: &Vec<Address>,
    weights: &Vec<u64>,
) -> (r: Option<Table<Address, u64>>)
    requires
        validators@.len() == weights@.len(),
    ensures
        r is Some <==> (epoch_length == 0 || at_epoch_boundary) && validators@.len() > 0,
        r matches Some(set) ==> set@ == weight_map(validators@, weights@, validators@.len()),
{
    if !(epoch_length == 0 || at_epoch_boundary) || validators.len() == 0 {
        return None;
    }
    let mut set: Table<Address, u64> = Table::new();
    let mut i: usize = 0;
    while i < validators.len()
        invariant
            i <= validators@.len(),
            validators@.len() == weights@.len(),
            set@ == weight_map(validators@, weights@, i as nat),
        decreases validators.len() - i,
    {
        set.insert(validators[i], weights[i]);
        i += 1;
    }
    Some(set)
}

/// What a system transaction did to the accounts.
#[derive(Debug)]
pub struct SystemContractEffects {
    /// Whether the validator set changed.
    pub validator_set_changed: bool,
    /// How many validators there are now.
    pub validator_count: usize,
    /// Whether the account of the validator registry exists.
    pub registry_exists: bool,
    /// The accounts that were updated, each with whether it exists.
    pub updated_accounts: Vec<(Address, bool)>,
}

/// The first updated account, from position `i` on, that does not exist.
pub open spec fn first_missing(accounts: Seq<(Address, bool)>, i: int) -> Option<Address>
    decreases accounts.len() - i,
{
    if i < 0 || i >= accounts.len() {
        None
    } else if !accounts[i].1 {
        Some(accounts[i].0)
    } else {
        first_missing(accounts, i + 1)
    }
}

/// Why the effects of a system transaction are refused, if they are.
pub open spec fn effects_error(effects: SystemContractEffects, max_validators: usize) -> Option<
    NodeError,
> {
    let count = effects.validator_count;
    let missing = first_missing(effects.updated_accounts@, 0);
    if effects.validator_set_changed && count == 0 {
        Some(NodeError::EmptyValidatorSet)
    } else if effects.validator_set_changed && count > max_validators {
        Some(NodeError::TooManyValidators { count, max: max_validators })
    } else if effects.validator_set_changed && !effects.registry_exists {
        Some(NodeError::RegistryAccountMissing)
    } else if missing is Some {
        Some(NodeError::UpdatedAccountMissing { address: missing->0 })
    } else {
        None
    }
}

/// Checks the effects of a system transaction: a changed validator set is neither empty nor too
/// large and has its registry, and every account that was updated exists.
pub fn validate_system_contract_effects(
    effects: &SystemContractEffects,
    max_validators: usize,
) -> (r: Result<(), NodeError>)
    ensures
        match effects_error(*effects, max_validators) {
            Some(e) => r == Err::<(), NodeError>(e),
            None => r is Ok,
        },
{
    if effects.validator_set_changed {
        if effects.validator_count == 0 {
            return Err(NodeError::EmptyValidatorSet);
        }
        if effects.validator_count > max_validators {
            return Err(
                NodeError::TooManyValidators {
                    count: effects.validator_count,
                    max: max_validators,
                },
            );
        }
        if !effects.registry_exists {
            return Err(NodeError::RegistryAccountMissing);
        }
    }
    let mut i: usize = 0;
    while i < effects.updated_accounts.len()
        invariant
            i <= effects.updated_accounts@.len(),
            first_missing(effects.updated_accounts@, 0) == first_missing(
                effects.updated_accounts@,
                i as int,
            ),
            effects.validator_set_changed ==> effects.validator_count > 0
                && effects.validator_count <= max_validators && effects.registry_exists,
        decreases effects.updated_accounts.len() - i,
    {
        if !effects.updated_accounts[i].1 {
            return Err(
                NodeError::UpdatedAccountMissing { address: effects.updated_accounts[i].0 },
            );
        }
        i += 1;
    }
    Ok(())
}

/// The sources whose witness bundles are due for deletion, in order.
pub open spec fn due_among(rows: Seq<(ShellHash, u64)>, head: u64, n: nat) -> Seq<ShellHash>
    decreases n,
{
    if n == 0 {
        Seq::empty()
    } else if head >= rows[n - 1].1 {
        due_among(rows, head, (n - 1) as nat).push(rows[n - 1].0)
    } else {
        due_among(rows, head, (n - 1) as nat)
    }
}

/// The sources whose witness bundles are to be deleted now: those whose time of grace ends at or
/// before the head. The outcome of each deletion goes to [`finish_grace_delete`].
pub fn prune_grace_witnesses(pending: &Table<ShellHash, u64>, current_head: u64) -> (r: Vec<
    ShellHash,
>)
    ensures
        r@ == due_among(pending.rows(), current_head, pending.rows().len()),
        forall|h: ShellHash| #[trigger]
            r@.contains(h) <==> pending@.contains_key(h) && pending@[h] <= current_head,
{
    let mut due: Vec<ShellHash> = Vec::new();
    let count: usize = pending.len();
    let ghost rows = pending.rows();
    let mut i: usize = 0;
    while i < count
        invariant
            i <= count,
            count == rows.len(),
            rows == pending.rows(),
            due@ == due_among(rows, current_head, i as nat),
        decreases count - i,
    {
        let row = pending.row(i);
        if current_head >= row.1 {
            due.push(row.0);
        }
        i += 1;
    }
    proof {
        crate::table::lemma_rows_map(rows);
        lemma_due(rows, current_head, rows.len());
        assert forall|h: ShellHash| #[trigger]
            due@.contains(h) <==> pending@.contains_key(h) && pending@[h] <= current_head by {
            if due@.contains(h) {
                let k = choose|k: int| 0 <= k < rows.len() && rows[k].0 == h && rows[k].1 <= current_head;
                assert(pending@.contains_key(rows[k].0));
            }
            if pending@.contains_key(h) && pending@[h] <= current_head {
                let k = choose|k: int| 0 <= k < rows.len() && (#[trigger] rows[k]).0 == h;
                assert(pending@.contains_key(rows[k].0));
            }
        }
    }
    due
}

proof fn lemma_due(rows: Seq<(ShellHash, u64)>, head: u64, n: nat)
    requires
        n <= rows.len(),
    ensures
        forall|h: ShellHash| #[trigger]
            due_among(rows, head, n).contains(h) <==> exists|k: int|
                0 <= k < n && rows[k].0 == h && rows[k].1 <= head,
    decreases n,
{
    if n > 0 {
        lemma_due(rows, head, (n - 1) as nat);
        let before = due_among(rows, head, (n - 1) as nat);
        let all = due_among(rows, head, n);
        assert forall|h: ShellHash| #[trigger] all.contains(h) <==> exists|k: int|
            0 <= k < n && rows[k].0 == h && rows[k].1 <= head by {
            assert(before.contains(h) <==> exists|k: int|
                0 <= k < n - 1 && rows[k].0 == h && rows[k].1 <= head);
            if all.contains(h) {
                let j = choose|j: int| 0 <= j < all.len() && all[j] == h;
                if j < before.len() {
                    assert(before[j] == h);
                    let k = choose|k: int| 0 <= k < n - 1 && rows[k].0 == h && rows[k].1 <= head;
                    assert(rows[k].0 == h);
                } else {
                    assert(rows[n - 1].0 == h);
                }
            }
            if exists|k: int| 0 <= k < n && rows[k].0 == h && rows[k].1 <= head {
                let k = choose|k: int| 0 <= k < n && rows[k].0 == h && rows[k].1 <= head;
                if k < n - 1 {
                    assert(before.contains(h));
                    let j = choose|j: int| 0 <= j < before.len() && before[j] == h;
                    assert(all[j] == h);
                } else {
                    assert(all[all.len() - 1] == h);
                }
            }
        }
    }
}

/// Takes note of a deletion: a witness bundle that could not be deleted stays due.
pub fn finish_grace_delete(pending: &mut Table<ShellHash, u64>, source: &ShellHash, deleted: bool)
    ensures
        final(pending)@ == if deleted {
            old(pending)@.remove(*source)
        } else {
            old(pending)@
        },
{
    if deleted {
        pending.remove(source);
    }
}

/// Every validator that is named is in the set, with the weight that goes with the last place at which
/// it is named, and no one else is.
pub proof fn law_last_weight_of_a_validator_counts(
    validators: Seq<Address>,
    weights: Seq<u64>,
    n: nat,
    validator: Address,
)
    requires
        n <= validators.len(),
        validators.len() == weights.len(),
    ensures
        weight_map(validators, weights, n).contains_key(validator) <==> exists|i: int|
            0 <= i < n && #[trigger] validators[i] == validator,
        forall|i: int|
            0 <= i < n && #[trigger] validators[i] == validator && (forall|j: int|
                i < j < n ==> #[trigger] validators[j] != validator) ==> weight_map(
                validators,
                weights,
                n,
            )[validator] == weights[i],
    decreases n,
{
    if n > 0 {
        law_last_weight_of_a_validator_counts(validators, weights, (n - 1) as nat, validator);
        let last = validators[n - 1];
        if last != validator && weight_map(validators, weights, (n - 1) as nat).contains_key(
            validator,
        ) {
            let i = choose|i: int| 0 <= i < n - 1 && #[trigger] validators[i] == validator;
            assert(validators[i] == validator);
        }
    }
}

proof fn lemma_first_missing(accounts: Seq<(Address, bool)>, from: int)
    requires
        0 <= from,
    ensures
        match first_missing(accounts, from) {
            Some(address) => exists|i: int|
                from <= i < accounts.len() && (#[trigger] accounts[i]).0 == address && !accounts[i].1
                    && forall|j: int| from <= j < i ==> (#[trigger] accounts[j]).1,
            None => forall|j: int| from <= j < accounts.len() ==> (#[trigger] accounts[j]).1,
        },
    decreases accounts.len() - from,
{
    if from < accounts.len() {
        lemma_first_missing(accounts, from + 1);
        if accounts[from].1 {
            match first_missing(accounts, from + 1) {
                Some(address) => {
                    let i = choose|i: int|
                        from + 1 <= i < accounts.len() && (#[trigger] accounts[i]).0 == address
                            && !accounts[i].1 && forall|j: int|
                            from + 1 <= j < i ==> (#[trigger] accounts[j]).1;
                    assert(accounts[i].0 == address);
                },
                None => {},
            }
        } else {
            assert(accounts[from].0 == accounts[from].0);
        }
    }
}

/// The effects of a system transaction stand exactly if a changed validator set is neither empty nor
/// too large and has its registry, and every updated account exists. Of several accounts that do not
/// exist the first is named.
pub proof fn law_effects_that_stand(effects: SystemContractEffects, max_validators: usize, i: int)
    requires
        0 <= i < effects.updated_accounts@.len(),
    ensures
        ({
            let error = effects_error(effects, max_validators);
            let accounts = effects.updated_accounts@;
            let set_fits = effects.validator_set_changed ==> 1 <= effects.validator_count
                <= max_validators && effects.registry_exists;
            let before = forall|j: int| 0 <= j < i ==> (#[trigger] accounts[j]).1;
            let all = forall|j: int| 0 <= j < accounts.len() ==> (#[trigger] accounts[j]).1;
            &&& error is None <==> set_fits && all
            &&& effects.validator_set_changed && effects.validator_count == 0 ==> error == Some(
                NodeError::EmptyValidatorSet,
            )
            &&& effects.validator_set_changed && effects.validator_count > max_validators
                && effects.validator_count > 0 ==> error == Some(
                NodeError::TooManyValidators {
                    count: effects.validator_count,
                    max: max_validators,
                },
            )
            &&& effects.validator_set_changed && 1 <= effects.validator_count <= max_validators
                && !effects.registry_exists ==> error == Some(NodeError::RegistryAccountMissing)
            &&& set_fits && before && !accounts[i].1 ==> error == Some(
                NodeError::UpdatedAccountMissing { address: accounts[i].0 },
            )
        }),
{
    let accounts = effects.updated_accounts@;
    lemma_first_missing(accounts, 0);
    if first_missing(accounts, 0) is Some {
        let address = first_missing(accounts, 0)->0;
        let k = choose|k: int|
            0 <= k < accounts.len() && (#[trigger] accounts[k]).0 == address && !accounts[k].1
                && forall|j: int| 0 <= j < k ==> (#[trigger] accounts[j]).1;
        assert(!accounts[k].1);
        if i < k {
            assert(accounts[i].1);
        }
    }
}

/// A witness bundle more is due, behind those before it, exactly if its time of grace ends at or
/// before the head.
pub proof fn law_due_when_the_grace_ends(rows: Seq<(ShellHash, u64)>, row: (ShellHash, u64), head: u64)
    ensures
        ({
            let before = due_among(rows, head, rows.len());
            let after = due_among(rows.push(row), head, rows.len() + 1);
            &&& row.1 <= head ==> after == before.push(row.0)
            &&& row.1 > head ==> after == before
        }),
        due_among(Seq::empty(), head, 0).len() == 0,
{
    lemma_due_prefix(rows, row, head, rows.len());
}

proof fn lemma_due_prefix(rows: Seq<(ShellHash, u64)>, row: (ShellHash, u64), head: u64, n: nat)
    requires
        n <= rows.len(),
    ensures
        due_among(rows.push(row), head, n) == due_among(rows, head, n),
    decreases n,
{
    if n > 0 {
        lemma_due_prefix(rows, row, head, (n - 1) as nat);
    }
}

/// What is written for a commit changes the recorded finality where it holds a height, to that height,
/// and nothing else.
pub proof fn law_what_is_stored_for_a_commit(view: ChainView, write: FinalityWrite)
    ensures
        ({
            let after = stored_finality(view, write);
            &&& write.finalized_number matches Some(number) ==> after.finalized == Some(number)
            &&& write.finalized_number is None ==> after.finalized == view.finalized
            &&& after == (ChainView { finalized: after.finalized, ..view })
        }),
{
}

/// The height of the head is that of the block that the head names, and zero where there is no head or
/// its block is not known.
pub proof fn law_height_of_the_head(view: ChainView)
    ensures
        view.head is Some && view.blocks.contains_key(view.head->0) ==> head_number_of(view)
            == view.blocks[view.head->0].header.number,
        view.head is None || !view.blocks.contains_key(view.head->0) ==> head_number_of(view) == 0,
        crate::stark::head_height(view) == head_number_of(view),
{
}

/// Whether a signer's key is registered is what this node knows of it, whatever else was shown.
pub proof fn law_registered_keys_count(node: Node, signer: Address, shown: SignerEvidence)
    ensures
        ({
            let evidence = node.evidence_for(signer, shown);
            &&& evidence.key_known <==> node.known_authorities@.contains_key(signer)
            &&& evidence.inferred == shown.inferred
            &&& evidence.allowed == shown.allowed
            &&& evidence.verdict == shown.verdict
        }),
{
}

/// A witness bundle that was deleted is no longer due, one that could not be deleted stays, and nothing
/// else changes.
pub proof fn law_only_deleted_bundles_leave(
    pending: &mut Table<ShellHash, u64>,
    source: ShellHash,
    deleted: bool,
    other: ShellHash,
)
    requires
        call_ensures(finish_grace_delete, (pending, &source, deleted), ()),
    ensures
        final(pending)@.contains_key(source) <==> old(pending)@.contains_key(source) && !deleted,
        other != source ==> (final(pending)@.contains_key(other) <==> old(pending)@.contains_key(
            other,
        )),
        final(pending)@.contains_key(other) ==> final(pending)@[other] == old(pending)@[other],
{
}

/// A node that starts has what its store holds: its certificates, proofs, signatures and second-layer
/// inputs, the recorded finality, and fork choice from there on. It has registered no key, runs no
/// round, and tracks no state root yet.
pub proof fn law_a_node_that_starts(
    config: NodeConfig,
    chain_store: ChainStore,
    stored: StoredState,
    validator_weights: Table<Address, u64>,
    default_peer_records: usize,
    node: Node,
    who: Address,
)
    requires
        call_ensures(
            Node::new,
            (config, chain_store, stored, validator_weights, default_peer_records),
            node,
        ),
    ensures
        node.chain_store == chain_store,
        node.validator_weights == validator_weights,
        node.commit_certificates == stored.commit_certificates,
        node.stark@.proofs == stored.proofs@,
        node.stark@.witnesses == stored.witnesses@,
        node.stark@.l2_inputs == stored.l2_inputs@.dom(),
        node.stark.pending().len() == 0,
        node.wpoa_round is None,
        !node.known_authorities@.contains_key(who),
        node.state_root_tracker@.len() == 0,
        chain_store@.finalized matches Some(n) ==> node.finality@.number == n,
        chain_store@.finalized is None ==> node.finality@.number == 0,
        node.finality@.records.len() == 0,
        node.fork_choice.root_weight == 0,
        config.max_peers > 0 ==> node.peer_capability_limit == config.max_peers,
        config.max_peers == 0 ==> node.peer_capability_limit == default_peer_records,
        config.pruning.body_retention == 0 ==> node.mapping_retention == u64::MAX,
        node.dev_state@.snapshots.len() == 0,
{
}

/// A registered key is known, in place of the one before it, and nothing else changes.
pub proof fn law_registered_keys_are_known(
    node: &mut Node,
    address: Address,
    pubkey: Vec<u8>,
    other: Address,
)
    requires
        call_ensures(Node::register_authority_pubkey, (node, address, pubkey), ()),
    ensures
        final(node).known_authorities@.contains_key(address),
        final(node).known_authorities@[address] == pubkey,
        other != address ==> (final(node).known_authorities@.contains_key(other) <==> old(
            node,
        ).known_authorities@.contains_key(other)),
        final(node).validator_weights == old(node).validator_weights,
        final(node).finality == old(node).finality,
        final(node).chain_store == old(node).chain_store,
{
}

/// An attestation that counts gives its block, in fork choice, the weight of all recorded attestations
/// to it, where fork choice knows the block, and changes the weight of no other block.
pub proof fn law_attestations_reach_fork_choice(
    node: &mut Node,
    attestation: Attestation,
    shown: SignerEvidence,
    step: Result<AttestationStep, NodeError>,
    other: ShellHash,
)
    requires
        call_ensures(Node::handle_attestation, (node, &attestation, shown), step),
    ensures
        ({
            let block = attestation.block_hash;
            let weight = final(node).finality@.attested(block);
            &&& step matches Ok(AttestationStep::Counted { attested_weight, finalizes }) ==> {
                &&& weight <= u64::MAX ==> attested_weight == weight
                &&& old(node).fork_choice@.contains(block) ==> final(node).fork_choice@.weight(block)
                    == attested_weight
                &&& old(node).known_authorities@.contains_key(attestation.validator)
                &&& old(node).validator_weights@.contains_key(attestation.validator)
                &&& attestation.chain_id == old(node).config.chain_id
            }
            &&& other != block ==> final(node).fork_choice@.weight(other) == old(
                node,
            ).fork_choice@.weight(other)
            &&& final(node).fork_choice@.contains(other) <==> old(node).fork_choice@.contains(other)
            &&& final(node).chain_store == old(node).chain_store
            &&& final(node).finality@.number == old(node).finality@.number
        }),
{
    let block = attestation.block_hash;
    let evidence = old(node).evidence_for(attestation.validator, shown);
    finality::law_accepted_attestations(
        old(node).chain_store@,
        old(node).finality@,
        attestation,
        old(node).config.chain_id,
        evidence,
        old(node).validator_weights@,
    );
    let weight = quorum::capped(final(node).finality@.attested(block));
    fork::law_attestation_changes_one_weight(old(node).fork_choice@, block, weight, other);
    fork::law_attestation_changes_one_weight(old(node).fork_choice@, block, weight, block);
}

/// A block that an attestation makes final is final in memory, in the store and in fork choice once its
/// height is written, and nowhere before.
pub proof fn law_finality_is_the_same_everywhere(
    node: &mut Node,
    number: u64,
    hash: ShellHash,
    written: Result<(), StorageError>,
    finished: Result<bool, NodeError>,
)
    requires
        call_ensures(Node::finish_attestation, (node, number, hash, written), finished),
        number > old(node).finality@.number,
    ensures
        written is Ok ==> {
            &&& final(node).finality@.number == number
            &&& final(node).finality@.hash == hash
            &&& final(node).chain_store@.finalized == Some(number)
            &&& final(node).fork_choice@.root_hash == hash
            &&& final(node).fork_choice@.root_number == number
            &&& final(node).fork_choice@.root_finalized
        },
        written is Err ==> {
            &&& finished is Err
            &&& final(node).finality@ == old(node).finality@
            &&& final(node).chain_store@ == old(node).chain_store@
            &&& final(node).fork_choice@ == old(node).fork_choice@
        },
{
}

/// A block enters fork choice with the weight of the attestations that are already recorded, and counts
/// as final exactly if it is not above the finalized height.
pub proof fn law_blocks_enter_with_their_weight(
    node: &mut Node,
    hash: ShellHash,
    parent: ShellHash,
    number: u64,
    added: bool,
)
    requires
        call_ensures(Node::add_fork_choice_block, (node, hash, parent, number), added),
    ensures
        added <==> !old(node).fork_choice@.contains(hash),
        !added ==> final(node).fork_choice@ == old(node).fork_choice@,
        added ==> {
            let blocks = final(node).fork_choice@.blocks;
            let last = blocks[blocks.len() - 1];
            &&& blocks.len() == old(node).fork_choice@.blocks.len() + 1
            &&& last.hash == hash
            &&& last.parent_hash == parent
            &&& last.number == number
            &&& old(node).finality@.attested(hash) <= u64::MAX ==> last.attested_weight == old(
                node,
            ).finality@.attested(hash)
            &&& last.finalized <==> number <= old(node).finality@.number
        },
        final(node).finality == old(node).finality,
{
}

/// A commit that is complete leaves its certificate under its block, and the block final here and in
/// the store where it is above the finalized one; one that is not leaves everything as it was.
pub proof fn law_commits_are_stored(
    node: &mut Node,
    commit: Commit,
    certificate: Vec<u8>,
    written: Result<(), StorageError>,
    complete: bool,
)
    requires
        call_ensures(Node::finish_commit, (node, commit, certificate, written), complete),
    ensures
        complete <==> old(node).wpoa_round is Some && (commit.write is None || written is Ok),
        complete && commit.write is Some ==> {
            &&& final(node).commit_certificates@.contains_key(commit.block_hash)
            &&& final(node).commit_certificates@[commit.block_hash] == certificate
            &&& final(node).finality@.number >= commit.block_number
            &&& commit.write->0.finalized_number matches Some(n) ==> final(
                node).chain_store@.finalized == Some(n)
        },
        !complete || commit.write is None ==> {
            &&& final(node).commit_certificates == old(node).commit_certificates
            &&& final(node).chain_store == old(node).chain_store
            &&& final(node).finality@ == old(node).finality@
        },
{
}

/// A certificate that finalizes a block is kept under the block once it is written, and the block is
/// final where it is above the finalized one; a write that fails changes nothing.
pub proof fn law_fast_finality_is_stored(
    node: &mut Node,
    number: u64,
    hash: ShellHash,
    write: FinalityWrite,
    cert: Vec<u8>,
    written: Result<(), StorageError>,
    accepted: bool,
)
    requires
        call_ensures(Node::finish_fast_finalize, (node, number, hash, write, cert, written), accepted),
    ensures
        accepted <==> written is Ok,
        accepted ==> {
            &&& final(node).commit_certificates@.contains_key(hash)
            &&& final(node).commit_certificates@[hash] == cert
            &&& final(node).finality@.number >= number
            &&& number > old(node).finality@.number ==> final(node).finality@.hash == hash
            &&& write.finalized_number matches Some(n) ==> final(node).chain_store@.finalized == Some(
                n,
            )
        },
        !accepted ==> {
            &&& final(node).commit_certificates == old(node).commit_certificates
            &&& final(node).chain_store == old(node).chain_store
            &&& final(node).finality@ == old(node).finality@
        },
{
}

/// A return to a snapshot that is held and whose world state is there makes the node's head and
/// finality those of the snapshot, forgets attestations and later snapshots, and hands back what was
/// pending then; where no snapshot of the id is held nothing changes.
pub proof fn law_a_node_returns_to_a_snapshot(
    node: &mut Node,
    id: &str,
    outcome: Result<Option<Reverted>, NodeError>,
    i: int,
)
    requires
        call_ensures(Node::revert, (node, id), outcome),
        dev::snapshot_id(id@) is Some,
    ensures
        ({
            let number = dev::snapshot_id(id@)->0;
            let before = old(node).dev_state@;
            let snapshot = before.snapshot(number);
            let back = outcome matches Ok(Some(_));
            &&& back <==> before.holds(number) && old(node).chain_store@.head_block() is Some && old(
                node,
            ).chain_store@.state_roots.contains(snapshot.state_root)
            &&& !before.holds(number) ==> outcome == Ok::<Option<Reverted>, NodeError>(None) && final(
                node).chain_store@ == old(node).chain_store@ && final(node).dev_state@ == before
            &&& back ==> {
                &&& final(node).chain_store@.head == Some(snapshot.head_hash)
                &&& final(node).chain_store@.world_root == snapshot.state_root
                &&& final(node).chain_store@.finalized == Some(snapshot.finalized_number)
                &&& final(node).finality@.number == snapshot.finalized_number
                &&& final(node).finality@.records.len() == 0
                &&& outcome->Ok_0->0.pending_txs@ == snapshot.pending_txs
                &&& 0 <= i < final(node).dev_state@.snapshots.len() ==> final(
                    node).dev_state@.snapshots[i].0 < number
                &&& final(node).dev_state@.next_block_timestamp == snapshot.next_block_timestamp
            }
            &&& !back ==> final(node).finality@ == old(node).finality@
        }),
{
    let number = dev::snapshot_id(id@)->0;
    let before = old(node).dev_state@;
    let snapshot = before.snapshot(number);
    let view = old(node).chain_store@;
    let keep = |s: (u64, SnapshotView)| s.0 < number;
    if view.head_block() is Some {
        dev::law_revert_returns_to_the_snapshot(view, snapshot);
    }
    lemma_kept_snapshots(before.snapshots, number);
    let kept = before.snapshots.filter(keep);
    if 0 <= i < kept.len() {
        assert(kept[i].0 < number);
    }
}

proof fn lemma_kept_snapshots(snapshots: Seq<(u64, SnapshotView)>, number: u64)
    ensures
        ({
            let kept = snapshots.filter(|s: (u64, SnapshotView)| s.0 < number);
            forall|i: int| 0 <= i < kept.len() ==> (#[trigger] kept[i]).0 < number
        }),
    decreases snapshots.len(),
{
    reveal(Seq::filter);
    if snapshots.len() > 0 {
        lemma_kept_snapshots(snapshots.drop_last(), number);
    }
}

/// A validator set is taken over exactly at the boundary of an epoch, or after every block where there
/// are no epochs, and never an empty one.
pub proof fn law_when_validators_change(
    epoch_length: u64,
    at_epoch_boundary: bool,
    validators: Vec<Address>,
    weights: Vec<u64>,
    set: Option<Table<Address, u64>>,
    i: int,
)
    requires
        call_ensures(
            reload_authorities_if_boundary,
            (epoch_length, at_epoch_boundary, &validators, &weights),
            set,
        ),
        validators@.len() == weights@.len(),
        0 <= i < validators@.len(),
        forall|j: int| i < j < validators@.len() ==> #[trigger] validators@[j] != validators@[i],
    ensures
        set is Some <==> epoch_length == 0 || at_epoch_boundary,
        set matches Some(table) ==> table@.contains_key(validators@[i]) && table@[validators@[i]]
            == weights@[i],
{
    law_last_weight_of_a_validator_counts(
        validators@,
        weights@,
        validators@.len(),
        validators@[i],
    );
}

/// This node's own weight counts exactly if it proposes, is a validator, and has one that is not zero.
pub proof fn law_own_weight(proposer: Option<Address>, weights: Table<Address, u64>, own: Option<u64>)
    requires
        call_ensures(local_validator_weight, (proposer, &weights), own),
    ensures
        own is Some <==> proposer is Some && weights@.contains_key(proposer->0)
            && weights@[proposer->0] > 0,
        own matches Some(weight) ==> weight == weights@[proposer->0],
{
}

/// The lowest height with a body is one below which no canonical block has a body.
pub proof fn law_lowest_available_body(node: Node, lowest: u64, number: u64)
    requires
        call_ensures(Node::oldest_available_body_block, (&node,), lowest),
        node.chain_store@.canonical.contains_key(number),
        node.chain_store@.blocks.contains_key(node.chain_store@.canonical[number]),
    ensures
        lowest <= number,
        node.chain_store@.canonical.contains_key(lowest),
        node.chain_store@.blocks.contains_key(node.chain_store@.canonical[lowest]),
{
    assert(node.chain_store@.block_at(number) is Some);
}

} // verus!
