//! Votes of a consensus round, commit certificates that arrive from peers, and view changes.
//!
//! A block commits once the votes for it weigh strictly more than two thirds, by the weights that
//! hold when a vote arrives. The certificate and the finalized height of a committed block go to the
//! store in one write, before the round and finality move; where the write fails nothing moves, and
//! the vote can be sent again.

use vstd::prelude::*;

use crate::certificate::signature_map;
use crate::chain::{ChainStore, ChainView};
use crate::error::{NodeError, StorageError};
use crate::finality::{FinalityState, FinalityView};
use crate::primitives::{Address, ShellHash};
use crate::quorum;
use crate::signature::{self, PQSignature, SignatureView, SignerEvidence, SignerFault, Verdict};
use crate::table::Table;

verus! {

/// Something a peer did that its score takes note of.
#[derive(Clone, Copy, Debug, PartialEq, Eq, Structural)]
pub enum PeerEvent {
    /// It sent what is not valid.
    InvalidProofPayload,
    /// It sent the same twice.
    DuplicateMessage,
    /// It contributed to a commit.
    ValidProofDelivered,
}

/// Where a round stands.
#[derive(Clone, Copy, Debug, PartialEq, Eq, Structural)]
pub enum RoundPhase {
    /// No block has been proposed.
    Proposing,
    /// Votes are being collected.
    Voting,
    /// The block is committed.
    Committed,
}

/// A consensus round as a mathematical value.
#[verifier::ext_equal]
pub struct RoundView {
    /// Height that the round decides.
    pub block_number: u64,
    /// Where the round stands.
    pub phase: RoundPhase,
    /// The block that was proposed.
    pub block_hash: ShellHash,
    /// The weights of the validators.
    pub weights: Seq<(Address, u64)>,
    /// The votes, by voter.
    pub votes: Map<Address, SignatureView>,
}

/// A consensus round: one proposed block and the verified votes for it.
pub struct WPoaRound {
    block_number: u64,
    phase: RoundPhase,
    block_hash: ShellHash,
    weights: Table<Address, u64>,
    votes: Table<Address, PQSignature>,
}

impl View for WPoaRound {
    type V = RoundView;

    closed spec fn view(&self) -> RoundView {
        RoundView {
            block_number: self.block_number,
            phase: self.phase,
            block_hash: self.block_hash,
            weights: self.weights.rows(),
            votes: signature_map(self.votes@),
        }
    }
}

impl WPoaRound {
    /// A round without a proposal.
    pub fn new(block_number: u64, weights: Table<Address, u64>) -> (r: Self)
        ensures
            r@ == (RoundView {
                block_number,
                phase: RoundPhase::Proposing,
                block_hash: crate::primitives::zero_hash(),
                weights: weights.rows(),
                votes: Map::empty(),
            }),
    {
        let r = WPoaRound {
            block_number,
            phase: RoundPhase::Proposing,
            block_hash: ShellHash::zero(),
            weights,
            votes: Table::new(),
        };
        assert(r@.votes =~= Map::empty());
        r
    }

    /// Takes a proposal, unless there is one. Returns whether it was taken, and votes are needed.
    pub fn on_block_proposed(&mut self, block_hash: ShellHash) -> (r: bool)
        ensures
            r == (old(self)@.phase == RoundPhase::Proposing),
            final(self)@ == if r {
                RoundView { phase: RoundPhase::Voting, block_hash, ..old(self)@ }
            } else {
                old(self)@
            },
    {
        if self.phase == RoundPhase::Proposing {
            self.phase = RoundPhase::Voting;
            self.block_hash = block_hash;
            true
        } else {
            false
        }
    }

    /// Name of the phase.
    pub fn phase_name(&self) -> (r: &'static str)
        ensures
            r@ == match self@.phase {
                RoundPhase::Proposing => "Proposing"@,
                RoundPhase::Voting => "Voting"@,
                RoundPhase::Committed => "Committed"@,
            },
    {
        match self.phase {
            RoundPhase::Proposing => "Proposing",
            RoundPhase::Voting => "Voting",
            RoundPhase::Committed => "Committed",
        }
    }

    /// Puts the present weights in place of the round's. Votes stay as they are.
    pub fn rebuild(&mut self, weights: &Table<Address, u64>)
        ensures
            final(self)@ == (RoundView { weights: weights.rows(), ..old(self)@ }),
    {
        self.weights = weights.duplicate();
    }

    fn duplicate_votes(&self) -> (r: Table<Address, PQSignature>)
        ensures
            signature_map(r@) == self@.votes,
    {
        let mut copy: Table<Address, PQSignature> = Table::new();
        let count: usize = self.votes.len();
        let ghost rows = self.votes.rows();
        let mut i: usize = 0;
        assert(signature_map(copy@) =~= signature_map(crate::table::rows_map(rows.take(0))));
        while i < count
            invariant
                i <= count,
                count == rows.len(),
                rows == self.votes.rows(),
                signature_map(copy@) == signature_map(crate::table::rows_map(rows.take(i as int))),
            decreases count - i,
        {
            let row = self.votes.row(i);
            let ghost before = copy@;
            copy.insert(row.0, row.1.duplicate());
            proof {
                let part = rows.take(i + 1);
                assert(part.drop_last() =~= rows.take(i as int));
                assert(part.last() == rows[i as int]);
                let earlier = crate::table::rows_map(rows.take(i as int));
                assert(signature_map(copy@) =~= signature_map(before).insert(
                    rows[i as int].0,
                    rows[i as int].1@,
                ));
                assert(signature_map(crate::table::rows_map(part)) =~= signature_map(earlier).insert(
                    rows[i as int].0,
                    rows[i as int].1@,
                ));
            }
            i += 1;
        }
        assert(rows.take(i as int) =~= rows);
        copy
    }
}

/// What a vote comes to.
#[derive(Clone, Copy, Debug, PartialEq, Eq, Structural)]
pub enum VoteDecision {
    /// The vote is refused, and the voter's score takes note where there is an event.
    Reject(Option<PeerEvent>),
    /// The vote is of no use: there is no such round, it is not collecting votes, or the voter is
    /// not a validator in it.
    Ignore,
    /// The vote is recorded.
    Record,
    /// The vote commits the block, once what has to be written is written.
    Commit,
}

/// Whether a block is the canonical one of a height, body and all.
pub open spec fn is_local_block(view: ChainView, number: u64, hash: ShellHash) -> bool {
    match view.block_at(number) {
        Some(block) => block.hash == hash,
        None => false,
    }
}

/// What a vote comes to within its round, by the present weights.
pub open spec fn round_decision(
    round: RoundView,
    weights: Seq<(Address, u64)>,
    voter: Address,
    block_hash: ShellHash,
) -> VoteDecision {
    if round.phase != RoundPhase::Voting {
        VoteDecision::Ignore
    } else if !crate::table::rows_map(weights).contains_key(voter) {
        VoteDecision::Ignore
    } else if round.block_hash != block_hash {
        VoteDecision::Reject(Some(PeerEvent::InvalidProofPayload))
    } else if round.votes.contains_key(voter) {
        VoteDecision::Reject(Some(PeerEvent::DuplicateMessage))
    } else if quorum::is_quorum(
        quorum::weight_of(weights, round.votes.dom().insert(voter)) as int,
        quorum::weight_sum(weights) as int,
    ) {
        VoteDecision::Commit
    } else {
        VoteDecision::Record
    }
}

/// Whether a vote gets as far as a round: it does not go against a finalized block, its signature
/// counts, and the round is for its height.
pub open spec fn reaches_round(
    view: ChainView,
    finality: FinalityView,
    round: RoundView,
    block_hash: ShellHash,
    block_number: u64,
    signature: SignatureView,
    evidence: SignerEvidence,
) -> bool {
    &&& !(0 < finality.number && block_number <= finality.number && !is_local_block(
        view,
        block_number,
        block_hash,
    ))
    &&& signature::signer_fault(evidence, Some(signature.sig_type)) is None
    &&& round.block_number == block_number
}

/// What a vote comes to.
pub open spec fn vote_decision(
    view: ChainView,
    finality: FinalityView,
    round: Option<RoundView>,
    weights: Seq<(Address, u64)>,
    voter: Address,
    block_hash: ShellHash,
    block_number: u64,
    signature: SignatureView,
    evidence: SignerEvidence,
) -> VoteDecision {
    let fault = signature::signer_fault(evidence, Some(signature.sig_type));
    if 0 < finality.number && block_number <= finality.number && !is_local_block(
        view,
        block_number,
        block_hash,
    ) {
        VoteDecision::Reject(Some(PeerEvent::InvalidProofPayload))
    } else if fault == Some(SignerFault::UnknownKey) {
        VoteDecision::Reject(None)
    } else if fault is Some {
        VoteDecision::Reject(Some(PeerEvent::InvalidProofPayload))
    } else {
        match round {
            None => VoteDecision::Ignore,
            Some(round) => if round.block_number != block_number {
                VoteDecision::Ignore
            } else {
                round_decision(round, weights, voter, block_hash)
            },
        }
    }
}

/// What has to be written for a committed block, in one write.
#[derive(Clone, Copy, Debug, PartialEq, Eq, Structural)]
pub struct FinalityWrite {
    /// The new finalized height, unless the block was final before.
    pub finalized_number: Option<u64>,
}

/// A vote that commits its block.
pub struct Commit {
    /// Height of the block.
    pub block_number: u64,
    /// The block.
    pub block_hash: ShellHash,
    /// The signatures of the quorum, which make up the certificate.
    pub signatures: Table<Address, PQSignature>,
    /// What has to be written together with the certificate. A block that is not canonical here gets
    /// neither certificate nor finality yet.
    pub write: Option<FinalityWrite>,
}

/// A vote's decision, and the commit that it brings about.
pub struct VoteStep {
    /// What the vote comes to.
    pub decision: VoteDecision,
    /// What the scores of validators take note of.
    pub events: Vec<(Address, PeerEvent)>,
    /// The commit, where the vote brings one about.
    pub commit: Option<Commit>,
}

/// What has to be written for a block that has its quorum: nothing while it is not canonical here,
/// else its certificate, and its height where that is above the finalized one.
pub open spec fn finality_write(local: bool, finality: FinalityView, number: u64) -> Option<
    FinalityWrite,
> {
    if !local {
        None
    } else if number > finality.number {
        Some(FinalityWrite { finalized_number: Some(number) })
    } else {
        Some(FinalityWrite { finalized_number: None })
    }
}

fn decide_write(local: bool, finality: &FinalityState, number: u64) -> (r: Option<FinalityWrite>)
    ensures
        r == finality_write(local, finality@, number),
{
    if !local {
        None
    } else if number > finality.last_finalized_number() {
        Some(FinalityWrite { finalized_number: Some(number) })
    } else {
        Some(FinalityWrite { finalized_number: None })
    }
}

fn local_block(chain: &ChainStore, number: u64, hash: &ShellHash) -> (r: bool)
    ensures
        r == is_local_block(chain@, number, *hash),
{
    match chain.get_block_by_number(number) {
        Some(block) => block.hash == *hash,
        None => false,
    }
}

/// What the scores of validators take note of: a fault of the voter, or of a commit the contribution
/// of everyone who signed it.
pub open spec fn scored(
    events: Seq<(Address, PeerEvent)>,
    decision: VoteDecision,
    voter: Address,
    commit: Option<Commit>,
) -> bool {
    match decision {
        VoteDecision::Reject(Some(event)) => events == seq![(voter, event)],
        VoteDecision::Commit => {
            let rows = commit->0.signatures.rows();
            &&& events.len() == rows.len()
            &&& forall|i: int|
                0 <= i < rows.len() ==> (#[trigger] events[i]) == (
                    rows[i].0,
                    PeerEvent::ValidProofDelivered,
                )
        },
        _ => events.len() == 0,
    }
}

fn reject(voter: Address, event: Option<PeerEvent>) -> (r: VoteStep)
    ensures
        r.decision == VoteDecision::Reject(event),
        r.commit is None,
        scored(r.events@, r.decision, voter, r.commit),
{
    let mut events: Vec<(Address, PeerEvent)> = Vec::new();
    match event {
        Some(event) => {
            events.push((voter, event));
            assert(events@ =~= seq![(voter, event)]);
        },
        None => {},
    }
    VoteStep { decision: VoteDecision::Reject(event), events, commit: None }
}

fn reward_signers(signatures: &Table<Address, PQSignature>) -> (r: Vec<(Address, PeerEvent)>)
    ensures
        r@.len() == signatures.rows().len(),
        forall|i: int|
            0 <= i < r@.len() ==> (#[trigger] r@[i]) == (
                signatures.rows()[i].0,
                PeerEvent::ValidProofDelivered,
            ),
{
    let mut events: Vec<(Address, PeerEvent)> = Vec::new();
    let count: usize = signatures.len();
    let mut i: usize = 0;
    while i < count
        invariant
            i <= count,
            count == signatures.rows().len(),
            events@.len() == i,
            forall|j: int|
                0 <= j < i ==> (#[trigger] events@[j]) == (
                    signatures.rows()[j].0,
                    PeerEvent::ValidProofDelivered,
                ),
        decreases count - i,
    {
        events.push((signatures.row(i).0, PeerEvent::ValidProofDelivered));
        i += 1;
    }
    events
}

/// The round after a vote was recorded under the present weights.
pub open spec fn with_vote(
    round: RoundView,
    weights: Seq<(Address, u64)>,
    voter: Address,
    signature: SignatureView,
) -> RoundView {
    RoundView { weights, votes: round.votes.insert(voter, signature), ..round }
}

/// Processes a vote from a peer.
///
/// A vote against a finalized block is refused. The voter's key must be registered and of an
/// algorithm that may be used, the signature must claim that algorithm and be good. In the round of
/// its height, the round's weights become the present ones and the vote is counted. A vote that
/// completes the quorum is not recorded yet: the caller writes what the commit asks for and hands
/// the outcome to [`finish_commit`].
pub fn handle_wpoa_vote(
    chain: &ChainStore,
    finality: &FinalityState,
    round: &mut Option<WPoaRound>,
    weights: &Table<Address, u64>,
    voter: Address,
    block_hash: ShellHash,
    block_number: u64,
    sig: PQSignature,
    evidence: SignerEvidence,
) -> (r: VoteStep)
    ensures
        ({
            let before = match *old(round) {
                Some(round) => Some(round@),
                None => None,
            };
            let decision = vote_decision(
                chain@,
                finality@,
                before,
                weights.rows(),
                voter,
                block_hash,
                block_number,
                sig@,
                evidence,
            );
            &&& r.decision == decision
            &&& scored(r.events@, decision, voter, r.commit)
            &&& before is None ==> *final(round) is None
            &&& before is Some ==> {
                &&& *final(round) is Some
                &&& decision == VoteDecision::Record ==> (*final(round))->0@ == with_vote(
                    before->0,
                    weights.rows(),
                    voter,
                    sig@,
                )
                &&& decision != VoteDecision::Record ==> (*final(round))->0@ == if reaches_round(
                    chain@,
                    finality@,
                    before->0,
                    block_hash,
                    block_number,
                    sig@,
                    evidence,
                ) {
                    RoundView { weights: weights.rows(), ..before->0 }
                } else {
                    before->0
                }
            }
            &&& decision != VoteDecision::Commit ==> r.commit is None
            &&& decision == VoteDecision::Commit ==> {
                &&& r.commit matches Some(commit)
                &&& commit.block_number == block_number
                &&& commit.block_hash == block_hash
                &&& signature_map(commit.signatures@) == before->0.votes.insert(voter, sig@)
                &&& commit.write == finality_write(
                    is_local_block(chain@, block_number, block_hash),
                    finality@,
                    block_number,
                )
            }
        }),
{
    let finalized: u64 = finality.last_finalized_number();
    let invalid = Some(PeerEvent::InvalidProofPayload);
    if finalized > 0 && block_number <= finalized && !local_block(chain, block_number, &block_hash) {
        return reject(voter, invalid);
    }
    match signature::check_signer(&evidence, Some(sig.sig_type)) {
        Some(fault) => {
            let penalty: Option<PeerEvent> = match fault {
                SignerFault::UnknownKey => None,
                _ => invalid,
            };
            return reject(voter, penalty);
        },
        None => {},
    }
    match round {
        None => VoteStep { decision: VoteDecision::Ignore, events: Vec::new(), commit: None },
        Some(current) => {
            if current.block_number != block_number {
                return VoteStep { decision: VoteDecision::Ignore, events: Vec::new(), commit: None };
            }
            let ghost before = current@;
            current.rebuild(weights);
            if current.phase != RoundPhase::Voting || !weights.contains_key(&voter) {
                return VoteStep { decision: VoteDecision::Ignore, events: Vec::new(), commit: None };
            }
            if current.block_hash != block_hash {
                return reject(voter, invalid);
            }
            if current.votes.contains_key(&voter) {
                return reject(voter, Some(PeerEvent::DuplicateMessage));
            }
            let ghost vote = sig@;
            let mut signatures = current.duplicate_votes();
            let ghost earlier = signatures@;
            signatures.insert(voter, sig);
            proof {
                assert(signature_map(signatures@) =~= before.votes.insert(voter, vote));
                assert(signatures@.dom() =~= signature_map(signatures@).dom());
                assert(before.votes.insert(voter, vote).dom() =~= before.votes.dom().insert(voter));
            }
            let signed: u128 = quorum::weight_of_members(weights, &signatures);
            let total: u128 = quorum::wide_total_weight(weights);
            if !quorum::has_wide_quorum(signed, total) {
                current.votes = signatures;
                return VoteStep { decision: VoteDecision::Record, events: Vec::new(), commit: None };
            }
            let local: bool = local_block(chain, block_number, &block_hash);
            let write = decide_write(local, finality, block_number);
            let events = reward_signers(&signatures);
            VoteStep {
                decision: VoteDecision::Commit,
                events,
                commit: Some(Commit { block_number, block_hash, signatures, write }),
            }
        },
    }
}

/// Completes a commit with the outcome of its write: the round is committed with the quorum's votes
/// and finality moves, or, where the write failed, neither changes.
///
/// Returns whether the commit is complete. A commit with nothing to write completes at once.
pub fn finish_commit(
    round: &mut WPoaRound,
    finality: &mut FinalityState,
    commit: Commit,
    written: Result<(), StorageError>,
) -> (r: bool)
    ensures
        r == (commit.write is None || written is Ok),
        !r ==> final(round)@ == old(round)@ && final(finality)@ == old(finality)@,
        r ==> final(round)@ == (RoundView {
            phase: RoundPhase::Committed,
            votes: signature_map(commit.signatures@),
            ..old(round)@
        }),
        r && commit.write is None ==> final(finality)@ == old(finality)@,
        r && commit.write is Some ==> final(finality)@ == old(finality)@.advanced(
            commit.block_number,
            commit.block_hash,
        ),
{
    if commit.write.is_some() {
        match written {
            Ok(()) => {},
            Err(_) => {
                return false;
            },
        }
        let _ = finality.set_finalized_direct(commit.block_number, commit.block_hash);
    }
    round.phase = RoundPhase::Committed;
    round.votes = commit.signatures;
    true
}

/// Whether one signature of a certificate counts: its signer is a validator with a known key, and it
/// is good under the algorithm that it claims, which is the signer's where key and address stand for
/// one. A key that was rotated under an unchanged address stands for none, and its signatures count.
pub open spec fn is_certified_by(
    weights: Map<Address, u64>,
    signer: Address,
    signature: SignatureView,
    evidence: Map<Address, SignerEvidence>,
) -> bool {
    &&& weights.contains_key(signer)
    &&& evidence.contains_key(signer)
    &&& evidence[signer].key_known
    &&& match evidence[signer].inferred {
        Some(algorithm) => algorithm == signature.sig_type,
        None => true,
    }
    &&& evidence[signer].verdict == Verdict::Valid
}

/// Whether a certificate makes a block final: the block is the canonical one of its height, every
/// signature counts, and the signers weigh a quorum.
pub open spec fn certifies(
    view: ChainView,
    weights: Map<Address, u64>,
    rows: Seq<(Address, u64)>,
    block_number: u64,
    block_hash: ShellHash,
    signatures: Map<Address, SignatureView>,
    evidence: Map<Address, SignerEvidence>,
) -> bool {
    &&& view.canonical.contains_key(block_number)
    &&& view.canonical[block_number] == block_hash
    &&& forall|signer: Address| #[trigger]
        signatures.contains_key(signer) ==> is_certified_by(
            weights,
            signer,
            signatures[signer],
            evidence,
        )
    &&& quorum::is_quorum(
        quorum::weight_of(rows, signatures.dom()) as int,
        quorum::weight_sum(rows) as int,
    )
}

/// Decides whether a certificate that came from a peer makes a block final, and what then has to be
/// written together with it.
///
/// `evidence` holds, for the signers, what checking their signatures against their keys has shown,
/// each verdict under the algorithm that the signature claims; a signature without evidence does not
/// count. Nothing moves before the write; its outcome goes to
/// [`finish_fast_finalize`].
pub fn fast_finalize_with_certificate(
    chain: &ChainStore,
    finality: &FinalityState,
    weights: &Table<Address, u64>,
    block_number: u64,
    block_hash: ShellHash,
    signatures: &Table<Address, PQSignature>,
    evidence: &Table<Address, SignerEvidence>,
) -> (r: Option<FinalityWrite>)
    ensures
        r == if certifies(
            chain@,
            weights@,
            weights.rows(),
            block_number,
            block_hash,
            signature_map(signatures@),
            evidence@,
        ) {
            finality_write(true, finality@, block_number)
        } else {
            None
        },
{
    let ghost map = signature_map(signatures@);
    if chain.get_block_hash_by_number(block_number) != Some(block_hash) {
        return None;
    }
    let count: usize = signatures.len();
    let ghost rows = signatures.rows();
    proof {
        crate::table::lemma_rows_map(rows);
    }
    let mut i: usize = 0;
    while i < count
        invariant
            i <= count,
            count == rows.len(),
            rows == signatures.rows(),
            map == signature_map(signatures@),
            forall|j: int|
                0 <= j < rows.len() ==> #[trigger] signatures@.contains_key(rows[j].0)
                    && signatures@[rows[j].0] == rows[j].1,
            forall|j: int|
                0 <= j < i ==> is_certified_by(
                    weights@,
                    (#[trigger] rows[j]).0,
                    rows[j].1@,
                    evidence@,
                ),
        decreases count - i,
    {
        let row = signatures.row(i);
        let good: bool = match evidence.get(&row.0) {
            Some(shown) => {
                let fits: bool = match shown.inferred {
                    Some(algorithm) => algorithm == row.1.sig_type,
                    None => true,
                };
                weights.contains_key(&row.0) && shown.key_known && fits && matches!(
                    shown.verdict,
                    Verdict::Valid
                )
            },
            None => false,
        };
        if !good {
            proof {
                assert(signatures@.contains_key(rows[i as int].0));
                assert(map.contains_key(rows[i as int].0));
                assert(map[rows[i as int].0] == rows[i as int].1@);
                assert(!is_certified_by(weights@, rows[i as int].0, rows[i as int].1@, evidence@));
            }
            return None;
        }
        i += 1;
    }
    proof {
        assert forall|signer: Address| #[trigger] map.contains_key(signer) implies is_certified_by(
            weights@,
            signer,
            map[signer],
            evidence@,
        ) by {
            assert(signatures@.contains_key(signer));
            let j = choose|j: int| 0 <= j < rows.len() && (#[trigger] rows[j]).0 == signer;
            assert(signatures@.contains_key(rows[j].0));
        }
        assert(map.dom() =~= signatures@.dom());
    }
    let signed: u128 = quorum::weight_of_members(weights, signatures);
    let total: u128 = quorum::wide_total_weight(weights);
    if !quorum::has_wide_quorum(signed, total) {
        return None;
    }
    decide_write(true, finality, block_number)
}

/// Completes a fast finalization with the outcome of its write: finality moves, or, where the write
/// failed, does not. Returns whether the certificate was accepted.
pub fn finish_fast_finalize(
    finality: &mut FinalityState,
    block_number: u64,
    block_hash: ShellHash,
    written: Result<(), StorageError>,
) -> (r: bool)
    ensures
        r == (written is Ok),
        final(finality)@ == if r {
            old(finality)@.advanced(block_number, block_hash)
        } else {
            old(finality)@
        },
{
    match written {
        Ok(()) => {
            let _ = finality.set_finalized_direct(block_number, block_hash);
            true
        },
        Err(_) => false,
    }
}

/// A validator's signed wish to change the view at a height.
#[derive(Debug)]
pub struct ViewChangeMessage {
    /// The network that it is for.
    pub chain_id: u64,
    /// The height that timed out.
    pub block_number: u64,
    /// The new view.
    pub new_view: u64,
    /// The highest certified block.
    pub highest_qc_hash: ShellHash,
    /// The validator.
    pub validator: Address,
    /// The signature over the rest.
    pub signature: Vec<u8>,
}

/// The height after a block's.
pub fn next_block_number(number: u64) -> (r: Result<u64, NodeError>)
    ensures
        r == if number == u64::MAX {
            Err(NodeError::NextHeightOverflow { number })
        } else {
            Ok((number + 1) as u64)
        },
{
    match number.checked_add(1) {
        Some(next) => Ok(next),
        None => Err(NodeError::NextHeightOverflow { number }),
    }
}

/// Why a view change is refused, if it is.
pub open spec fn view_change_error(
    head: Result<Option<u64>, StorageError>,
    message: ViewChangeMessage,
    local_chain_id: u64,
    evidence: SignerEvidence,
) -> Option<NodeError> {
    let fault = signature::signer_fault(evidence, None);
    let expected = match head {
        Ok(Some(number)) => number + 1,
        _ => 1int,
    };
    if head is Err {
        Some(NodeError::Storage(head->Err_0))
    } else if expected > u64::MAX {
        Some(NodeError::NextHeightOverflow { number: u64::MAX })
    } else if message.block_number != expected {
        Some(
            NodeError::ViewChangeHeight { got: message.block_number, expected: expected as u64 },
        )
    } else if message.chain_id != local_chain_id {
        Some(
            NodeError::ViewChangeChainId {
                got_chain: message.chain_id,
                local_chain: local_chain_id,
            },
        )
    } else if fault is Some {
        Some(NodeError::ViewChangeSigner { validator: message.validator, fault: fault->0 })
    } else {
        None
    }
}

/// Decides whether a view-change message counts, and with which total weight it is to be counted.
///
/// `head` is the height of the head, none before the first block, or the failure to read it. Only a
/// message for the next height counts, so that a stale one cannot change the choice of proposers.
pub fn handle_wpoa_view_change(
    head: Result<Option<u64>, StorageError>,
    message: &ViewChangeMessage,
    local_chain_id: u64,
    evidence: SignerEvidence,
    weights: &Table<Address, u64>,
) -> (r: Result<u64, NodeError>)
    ensures
        r == match view_change_error(head, *message, local_chain_id, evidence) {
            Some(e) => Err::<u64, NodeError>(e),
            None => Ok(quorum::capped(quorum::weight_sum(weights.rows()))),
        },
{
    let expected: u64 = match head {
        Err(e) => {
            return Err(NodeError::Storage(e));
        },
        Ok(None) => 1,
        Ok(Some(number)) => match next_block_number(number) {
            Ok(next) => next,
            Err(e) => {
                return Err(e);
            },
        },
    };
    if message.block_number != expected {
        return Err(NodeError::ViewChangeHeight { got: message.block_number, expected });
    }
    if message.chain_id != local_chain_id {
        return Err(
            NodeError::ViewChangeChainId {
                got_chain: message.chain_id,
                local_chain: local_chain_id,
            },
        );
    }
    match signature::check_signer(&evidence, None) {
        Some(fault) => {
            return Err(NodeError::ViewChangeSigner { validator: message.validator, fault });
        },
        None => {},
    }
    Ok(quorum::total_weight(weights))
}

/// A vote of validators that weigh nothing, or exactly two thirds, commits nothing.
pub proof fn law_commit_takes_more_than_two_thirds(
    round: RoundView,
    weights: Seq<(Address, u64)>,
    voter: Address,
    block_hash: ShellHash,
)
    requires
        round_decision(round, weights, voter, block_hash) == VoteDecision::Commit,
    ensures
        quorum::weight_sum(weights) > 0,
        3 * quorum::weight_of(weights, round.votes.dom().insert(voter)) > 2 * quorum::weight_sum(
            weights,
        ),
        round.block_hash == block_hash,
        crate::table::rows_map(weights).contains_key(voter),
{
}

/// Two blocks of a height cannot both be committed, under the same weights, without a validator of
/// some weight that voted for both.
pub proof fn law_conflicting_commits_share_a_voter(
    a: RoundView,
    b: RoundView,
    weights: Seq<(Address, u64)>,
    voter_a: Address,
    voter_b: Address,
)
    requires
        round_decision(a, weights, voter_a, a.block_hash) == VoteDecision::Commit,
        round_decision(b, weights, voter_b, b.block_hash) == VoteDecision::Commit,
    ensures
        exists|i: int|
            0 <= i < weights.len() && weights[i].1 > 0 && a.votes.dom().insert(voter_a).contains(
                (#[trigger] weights[i]).0,
            ) && b.votes.dom().insert(voter_b).contains(weights[i].0),
{
    quorum::law_quorums_intersect(
        weights,
        a.votes.dom().insert(voter_a),
        b.votes.dom().insert(voter_b),
    );
}

/// After a failed write the round is as it was, so the same vote commits the block again.
pub proof fn law_failed_commit_can_be_retried(
    round: RoundView,
    weights: Seq<(Address, u64)>,
    voter: Address,
    block_hash: ShellHash,
)
    requires
        round_decision(round, weights, voter, block_hash) == VoteDecision::Commit,
    ensures
        round_decision(RoundView { weights, ..round }, weights, voter, block_hash)
            == VoteDecision::Commit,
{
}

/// The certificate of a commit is accepted elsewhere: a node for which the block is canonical, which
/// has the same weights and for which each signature counts, finalizes the block by it.
pub proof fn law_commit_certificate_is_accepted(
    round: RoundView,
    weights: Seq<(Address, u64)>,
    voter: Address,
    signature: SignatureView,
    elsewhere: ChainView,
    evidence: Map<Address, SignerEvidence>,
)
    requires
        round_decision(round, weights, voter, round.block_hash) == VoteDecision::Commit,
        elsewhere.canonical.contains_key(round.block_number),
        elsewhere.canonical[round.block_number] == round.block_hash,
        forall|signer: Address| #[trigger]
            round.votes.insert(voter, signature).contains_key(signer) ==> is_certified_by(
                crate::table::rows_map(weights),
                signer,
                round.votes.insert(voter, signature)[signer],
                evidence,
            ),
    ensures
        certifies(
            elsewhere,
            crate::table::rows_map(weights),
            weights,
            round.block_number,
            round.block_hash,
            round.votes.insert(voter, signature),
            evidence,
        ),
{
    assert(round.votes.insert(voter, signature).dom() =~= round.votes.dom().insert(voter));
}

/// A certificate with the signatures of validators that weigh no more than two thirds together
/// finalizes nothing, and neither does one for a block that is not canonical.
pub proof fn law_weak_certificates_finalize_nothing(
    view: ChainView,
    weights: Seq<(Address, u64)>,
    block_number: u64,
    block_hash: ShellHash,
    signatures: Map<Address, SignatureView>,
    evidence: Map<Address, SignerEvidence>,
)
    requires
        3 * quorum::weight_of(weights, signatures.dom()) <= 2 * quorum::weight_sum(weights)
            || !view.canonical.contains_key(block_number) || view.canonical[block_number]
            != block_hash,
    ensures
        !certifies(
            view,
            crate::table::rows_map(weights),
            weights,
            block_number,
            block_hash,
            signatures,
            evidence,
        ),
{
}

/// Whether a vote may be counted at all: it does not go against a finalized block, and its signature
/// is a good one of the voter's algorithm, which may be used, under the voter's registered key.
pub open spec fn is_countable(
    view: ChainView,
    finality: FinalityView,
    block_hash: ShellHash,
    block_number: u64,
    signature: SignatureView,
    evidence: SignerEvidence,
) -> bool {
    &&& block_number <= finality.number && finality.number > 0 ==> view.canonical.contains_key(
        block_number,
    ) && view.blocks.contains_key(view.canonical[block_number])
        && view.blocks[view.canonical[block_number]].hash == block_hash
    &&& evidence.key_known
    &&& evidence.inferred == Some(signature.sig_type)
    &&& evidence.allowed
    &&& evidence.verdict is Valid
}

/// What becomes of a vote. One that may be counted, for the height and the block of a round that
/// collects votes, by a validator that has not voted, is recorded, or commits the block exactly when
/// the voters, this one among them, then weigh more than two thirds of a total that is not zero. A
/// second vote of a validator and a vote for another block are faults; without a round of its height,
/// outside the voting, or from somebody who is no validator, a vote has no effect.
pub proof fn law_what_becomes_of_a_vote(
    view: ChainView,
    finality: FinalityView,
    round: Option<RoundView>,
    weights: Seq<(Address, u64)>,
    voter: Address,
    block_hash: ShellHash,
    block_number: u64,
    signature: SignatureView,
    evidence: SignerEvidence,
)
    requires
        crate::table::distinct_keys(weights),
    ensures
        ({
            let decision = vote_decision(
                view,
                finality,
                round,
                weights,
                voter,
                block_hash,
                block_number,
                signature,
                evidence,
            );
            let countable = is_countable(
                view,
                finality,
                block_hash,
                block_number,
                signature,
                evidence,
            );
            let r = round->0;
            let is_validator = exists|i: int|
                0 <= i < weights.len() && (#[trigger] weights[i]).0 == voter;
            let concerned = round is Some && r.block_number == block_number && r.phase
                == RoundPhase::Voting && is_validator;
            let fresh = concerned && r.block_hash == block_hash && !r.votes.contains_key(voter);
            let enough = quorum::weight_sum(weights) > 0 && 3 * quorum::weight_of(
                weights,
                r.votes.dom().insert(voter),
            ) > 2 * quorum::weight_sum(weights);
            &&& decision == VoteDecision::Commit <==> countable && fresh && enough
            &&& decision == VoteDecision::Record <==> countable && fresh && !enough
            &&& decision == VoteDecision::Ignore <==> countable && !concerned
            &&& countable && concerned && r.block_hash == block_hash && r.votes.contains_key(voter)
                <==> decision == VoteDecision::Reject(Some(PeerEvent::DuplicateMessage))
            &&& countable && concerned && r.block_hash != block_hash ==> decision
                == VoteDecision::Reject(Some(PeerEvent::InvalidProofPayload))
            &&& !countable ==> decision == VoteDecision::Reject(
                Some(PeerEvent::InvalidProofPayload),
            ) || (decision == VoteDecision::Reject(None) && !evidence.key_known)
        }),
{
    crate::table::lemma_rows_map(weights);
    if exists|i: int| 0 <= i < weights.len() && (#[trigger] weights[i]).0 == voter {
        let i = choose|i: int| 0 <= i < weights.len() && (#[trigger] weights[i]).0 == voter;
        assert(crate::table::rows_map(weights).contains_key(weights[i].0));
    }
}

/// A recorded vote is there with its signature, the votes before it stay, and nothing else of the
/// round changes but the weights.
pub proof fn law_recorded_vote_is_kept(
    round: RoundView,
    weights: Seq<(Address, u64)>,
    voter: Address,
    signature: SignatureView,
    other: Address,
)
    ensures
        ({
            let after = with_vote(round, weights, voter, signature);
            &&& after.votes.contains_key(voter) && after.votes[voter] == signature
            &&& other != voter ==> (after.votes.contains_key(other) <==> round.votes.contains_key(
                other,
            ))
            &&& other != voter && round.votes.contains_key(other) ==> after.votes[other]
                == round.votes[other]
            &&& after.weights == weights
            &&& after.phase == round.phase
            &&& after.block_hash == round.block_hash
            &&& after.block_number == round.block_number
        }),
{
}

/// What is written for a block with a quorum: nothing while it is not canonical here; else its
/// certificate, together with its height exactly when that is above the finalized one.
pub proof fn law_what_is_written_for_a_quorum(finality: FinalityView, number: u64)
    ensures
        finality_write(false, finality, number) is None,
        finality_write(true, finality, number) is Some,
        finality_write(true, finality, number)->0.finalized_number is Some <==> number
            > finality.number,
        finality_write(true, finality, number)->0.finalized_number matches Some(n) ==> n == number,
{
}

/// Everyone who signed a commit is rewarded, once and nobody else; a fault is charged to the voter
/// alone, and nothing else is scored.
pub proof fn law_who_is_scored(
    events: Seq<(Address, PeerEvent)>,
    decision: VoteDecision,
    voter: Address,
    commit: Commit,
    someone: Address,
)
    requires
        scored(events, decision, voter, Some(commit)),
        crate::table::distinct_keys(commit.signatures.rows()),
    ensures
        decision == VoteDecision::Commit ==> {
            &&& events.len() == commit.signatures.rows().len()
            &&& events.contains((someone, PeerEvent::ValidProofDelivered)) <==> exists|i: int|
                0 <= i < commit.signatures.rows().len() && (
                #[trigger] commit.signatures.rows()[i]).0 == someone
            &&& forall|i: int|
                0 <= i < events.len() ==> (#[trigger] events[i]).1 == PeerEvent::ValidProofDelivered
        },
        (decision matches VoteDecision::Reject(Some(event)) ==> events.len() == 1 && events[0]
            == (voter, event)),
        decision == VoteDecision::Record || decision == VoteDecision::Ignore || decision
            == VoteDecision::Reject(None) ==> events.len() == 0,
{
    if decision == VoteDecision::Commit {
        let rows = commit.signatures.rows();
        if events.contains((someone, PeerEvent::ValidProofDelivered)) {
            let i = choose|i: int|
                0 <= i < events.len() && events[i] == (someone, PeerEvent::ValidProofDelivered);
            assert(rows[i].0 == someone);
        }
        if exists|i: int| 0 <= i < rows.len() && (#[trigger] rows[i]).0 == someone {
            let i = choose|i: int| 0 <= i < rows.len() && (#[trigger] rows[i]).0 == someone;
            assert(events[i] == (someone, PeerEvent::ValidProofDelivered));
        }
    }
}

/// A certificate makes a block final exactly when the block is the canonical one of its height, every
/// signer is a validator with a known key and a good signature of an algorithm that does not
/// contradict the key, and the signers weigh more than two thirds of a total that is not zero.
pub proof fn law_certificates_that_finalize(
    view: ChainView,
    weights: Seq<(Address, u64)>,
    block_number: u64,
    block_hash: ShellHash,
    signatures: Map<Address, SignatureView>,
    evidence: Map<Address, SignerEvidence>,
)
    requires
        crate::table::distinct_keys(weights),
    ensures
        certifies(
            view,
            crate::table::rows_map(weights),
            weights,
            block_number,
            block_hash,
            signatures,
            evidence,
        ) <==> {
            &&& view.canonical.contains_key(block_number)
            &&& view.canonical[block_number] == block_hash
            &&& forall|signer: Address| #[trigger]
                signatures.contains_key(signer) ==> {
                    &&& exists|i: int| 0 <= i < weights.len() && (#[trigger] weights[i]).0 == signer
                    &&& evidence.contains_key(signer)
                    &&& evidence[signer].key_known
                    &&& evidence[signer].inferred is Some ==> evidence[signer].inferred == Some(
                        signatures[signer].sig_type,
                    )
                    &&& evidence[signer].verdict is Valid
                }
            &&& quorum::weight_sum(weights) > 0
            &&& 3 * quorum::weight_of(weights, signatures.dom()) > 2 * quorum::weight_sum(weights)
        },
{
    let map = crate::table::rows_map(weights);
    crate::table::lemma_rows_map(weights);
    assert forall|who: Address| #[trigger] map.contains_key(who) <==> exists|i: int|
        0 <= i < weights.len() && (#[trigger] weights[i]).0 == who by {
        if exists|i: int| 0 <= i < weights.len() && (#[trigger] weights[i]).0 == who {
            let i = choose|i: int| 0 <= i < weights.len() && (#[trigger] weights[i]).0 == who;
            assert(map.contains_key(weights[i].0));
        }
    }
    if certifies(view, map, weights, block_number, block_hash, signatures, evidence) {
        assert forall|signer: Address| #[trigger] signatures.contains_key(signer) implies ({
            &&& exists|i: int| 0 <= i < weights.len() && (#[trigger] weights[i]).0 == signer
            &&& evidence.contains_key(signer)
            &&& evidence[signer].key_known
            &&& evidence[signer].inferred is Some ==> evidence[signer].inferred == Some(
                signatures[signer].sig_type,
            )
            &&& evidence[signer].verdict is Valid
        }) by {
            assert(is_certified_by(map, signer, signatures[signer], evidence));
            assert(map.contains_key(signer));
        }
    }
}

/// A view change counts exactly when it is for the height after the head, or for the first height
/// before there is a head, and for this network, and its validator's signature counts.
pub proof fn law_view_changes_that_count(
    head: Result<Option<u64>, StorageError>,
    message: ViewChangeMessage,
    local_chain_id: u64,
    evidence: SignerEvidence,
)
    ensures
        view_change_error(head, message, local_chain_id, evidence) is None <==> {
            &&& head is Ok
            &&& head->Ok_0 is Some ==> message.block_number == head->Ok_0->0 + 1
            &&& head->Ok_0 is None ==> message.block_number == 1
            &&& message.chain_id == local_chain_id
            &&& evidence.key_known && evidence.inferred is Some && evidence.allowed
                && evidence.verdict is Valid
        },
{
}

/// A block is one of this node's own chain exactly if it is the canonical one of its height and its
/// body is known.
pub proof fn law_local_blocks(view: ChainView, number: u64, hash: ShellHash)
    ensures
        is_local_block(view, number, hash) <==> view.canonical.contains_key(number)
            && view.blocks.contains_key(view.canonical[number])
            && view.blocks[view.canonical[number]].hash == hash,
{
}

/// Only the first proposal of a round counts: it opens the vote on its block, and any other leaves the
/// round as it is.
pub proof fn law_first_proposal_counts(round: &mut WPoaRound, hash: ShellHash, taken: bool)
    requires
        call_ensures(WPoaRound::on_block_proposed, (round, hash), taken),
    ensures
        taken <==> old(round)@.phase == RoundPhase::Proposing,
        taken ==> final(round)@.phase == RoundPhase::Voting && final(round)@.block_hash == hash
            && final(round)@.votes == old(round)@.votes && final(round)@.block_number == old(
            round,
        )@.block_number,
        !taken ==> final(round)@ == old(round)@,
{
}

/// A new round waits for a proposal, without votes.
pub proof fn law_a_new_round(number: u64, weights: Table<Address, u64>, round: WPoaRound)
    requires
        call_ensures(WPoaRound::new, (number, weights), round),
    ensures
        round@.block_number == number,
        round@.phase == RoundPhase::Proposing,
        round@.weights == weights.rows(),
        forall|who: Address| !(#[trigger] round@.votes.contains_key(who)),
{
}

/// A commit is complete exactly if there was nothing to write or the write succeeded. Then the round is
/// committed with the votes of the certificate, and finality moves where a write was asked for and the
/// block is above the finalized one; else round and finality stay as they were, to be tried again.
pub proof fn law_when_a_commit_is_complete(
    round: &mut WPoaRound,
    finality: &mut FinalityState,
    commit: Commit,
    written: Result<(), StorageError>,
    complete: bool,
)
    requires
        call_ensures(finish_commit, (round, finality, commit, written), complete),
    ensures
        complete <==> commit.write is None || written is Ok,
        complete ==> final(round)@.phase == RoundPhase::Committed && final(round)@.votes.dom()
            == commit.signatures@.dom() && final(round)@.block_hash == old(round)@.block_hash,
        !complete ==> final(round)@ == old(round)@,
        final(finality)@.number >= old(finality)@.number,
        complete && commit.write is Some && commit.block_number > old(finality)@.number ==> final(finality)@.number == commit.block_number && final(finality)@.hash == commit.block_hash,
        !complete || commit.write is None || commit.block_number <= old(finality)@.number ==> final(finality)@ == old(finality)@,
{
    assert(signature_map(commit.signatures@).dom() =~= commit.signatures@.dom());
}

/// The height after the last possible one does not exist; after any other there is one more.
pub proof fn law_the_next_height(number: u64, next: Result<u64, NodeError>)
    requires
        call_ensures(next_block_number, (number,), next),
    ensures
        next is Ok <==> number < 0xffff_ffff_ffff_ffff,
        next matches Ok(n) ==> n == number + 1,
{
}

/// A view change that counts is counted against the weight of all validators.
pub proof fn law_view_changes_are_weighed(
    head: Result<Option<u64>, StorageError>,
    message: ViewChangeMessage,
    local_chain_id: u64,
    evidence: SignerEvidence,
    weights: Table<Address, u64>,
    total: Result<u64, NodeError>,
)
    requires
        call_ensures(
            handle_wpoa_view_change,
            (head, &message, local_chain_id, evidence, &weights),
            total,
        ),
        quorum::weight_sum(weights.rows()) <= u64::MAX,
    ensures
        total is Ok <==> {
            &&& head is Ok
            &&& head->Ok_0 is Some ==> message.block_number == head->Ok_0->0 + 1
            &&& head->Ok_0 is None ==> message.block_number == 1
            &&& message.chain_id == local_chain_id
            &&& evidence.key_known && evidence.inferred is Some && evidence.allowed
                && evidence.verdict is Valid
        },
        total matches Ok(n) ==> n == quorum::weight_sum(weights.rows()),
{
    law_view_changes_that_count(head, message, local_chain_id, evidence);
}

/// A vote gets as far as a round exactly if it can be counted and the round is for its height; a vote
/// that is recorded, or that commits, got there.
pub proof fn law_votes_that_reach_a_round(
    view: ChainView,
    finality: FinalityView,
    round: RoundView,
    weights: Seq<(Address, u64)>,
    voter: Address,
    block_hash: ShellHash,
    block_number: u64,
    signature: SignatureView,
    evidence: SignerEvidence,
)
    ensures
        ({
            let reaches = reaches_round(
                view,
                finality,
                round,
                block_hash,
                block_number,
                signature,
                evidence,
            );
            let decision = vote_decision(
                view,
                finality,
                Some(round),
                weights,
                voter,
                block_hash,
                block_number,
                signature,
                evidence,
            );
            &&& reaches <==> round.block_number == block_number && is_countable(
                view,
                finality,
                block_hash,
                block_number,
                signature,
                evidence,
            )
            &&& decision == VoteDecision::Record || decision == VoteDecision::Commit ==> reaches
        }),
{
}

/// A vote that is recorded is in the round afterwards, with its signature; one that gets no further
/// than the round leaves the votes as they are, and one that does not get there leaves the round. The
/// scores of no one but the voter change unless the vote commits.
pub proof fn law_what_a_vote_leaves_behind(
    chain: ChainStore,
    finality: FinalityState,
    round: &mut Option<WPoaRound>,
    weights: Table<Address, u64>,
    voter: Address,
    block_hash: ShellHash,
    block_number: u64,
    sig: PQSignature,
    evidence: SignerEvidence,
    step: VoteStep,
)
    requires
        call_ensures(
            handle_wpoa_vote,
            (
                &chain,
                &finality,
                round,
                &weights,
                voter,
                block_hash,
                block_number,
                sig,
                evidence,
            ),
            step,
        ),
        *old(round) is Some,
    ensures
        ({
            let before = (*old(round))->0@;
            let after = (*final(round))->0@;
            let countable = is_countable(
                chain@,
                finality@,
                block_hash,
                block_number,
                sig@,
                evidence,
            );
            &&& *final(round) is Some
            &&& step.decision == VoteDecision::Record ==> after.votes.contains_key(voter)
                && after.votes[voter] == sig@
            &&& step.decision != VoteDecision::Record ==> after.votes == before.votes
            &&& after.phase == before.phase
            &&& after.block_hash == before.block_hash
            &&& countable && before.block_number == block_number ==> after.weights == weights.rows()
            &&& !countable || before.block_number != block_number ==> after == before
            &&& step.commit is Some <==> step.decision == VoteDecision::Commit
            &&& step.commit matches Some(commit) ==> commit.block_hash == block_hash
                && commit.block_number == block_number && commit.signatures@.contains_key(voter)
            &&& step.decision == VoteDecision::Record || step.decision == VoteDecision::Ignore
                ==> step.events@.len() == 0
            &&& step.decision matches VoteDecision::Reject(Some(event)) ==> step.events@.len() == 1
                && step.events@[0] == (voter, event)
        }),
{
    law_votes_that_reach_a_round(
        chain@,
        finality@,
        (*old(round))->0@,
        weights.rows(),
        voter,
        block_hash,
        block_number,
        sig@,
        evidence,
    );
    if step.commit is Some {
        assert(signature_map(step.commit->0.signatures@).contains_key(voter));
    }
}

/// A certificate makes a block final, and is to be written, exactly if the block is the canonical one of
/// its height and validators of more than two thirds of the weight have well signed it; its height is
/// written with it exactly if it is above the finalized one.
pub proof fn law_what_a_certificate_does(
    chain: ChainStore,
    finality: FinalityState,
    weights: Table<Address, u64>,
    number: u64,
    hash: ShellHash,
    signatures: Table<Address, PQSignature>,
    evidence: Table<Address, SignerEvidence>,
    write: Option<FinalityWrite>,
)
    requires
        call_ensures(
            fast_finalize_with_certificate,
            (&chain, &finality, &weights, number, hash, &signatures, &evidence),
            write,
        ),
        crate::table::distinct_keys(weights.rows()),
        weights@ == crate::table::rows_map(weights.rows()),
    ensures
        write is Some ==> {
            &&& chain@.canonical.contains_key(number) && chain@.canonical[number] == hash
            &&& 3 * quorum::weight_of(weights.rows(), signatures@.dom()) > 2 * quorum::weight_sum(
                weights.rows(),
            )
            &&& quorum::weight_sum(weights.rows()) > 0
            &&& forall|signer: Address| #[trigger]
                signatures@.contains_key(signer) ==> evidence@.contains_key(signer)
                    && evidence@[signer].key_known && evidence@[signer].verdict is Valid
        },
        write matches Some(w) ==> (w.finalized_number is Some <==> number > finality@.number),
        write matches Some(w) ==> (w.finalized_number matches Some(n) ==> n == number),
{
    law_certificates_that_finalize(
        chain@,
        weights.rows(),
        number,
        hash,
        signature_map(signatures@),
        evidence@,
    );
    assert(signature_map(signatures@).dom() =~= signatures@.dom());
    if write is Some {
        assert forall|signer: Address| #[trigger] signatures@.contains_key(
            signer,
        ) implies evidence@.contains_key(signer) && evidence@[signer].key_known
            && evidence@[signer].verdict is Valid by {
            assert(signature_map(signatures@).contains_key(signer));
        }
    }
}

} // verus!
