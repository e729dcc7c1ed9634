//! Attestations and the finality that they bring about.
//!
//! A block becomes final once validators with strictly more than two thirds of the weight have
//! attested to it, it is canonical, and the new finalized height has been written to the store. The
//! write comes before the step in memory, so a failed write leaves finality where it was and the
//! attestation in place for another try.

use vstd::prelude::*;

use crate::chain::{ChainStore, ChainView};
use crate::error::{NodeError, StorageError};
use crate::primitives::{Address, ShellHash};
use crate::quorum;
use crate::signature::{self, SignerEvidence};
use crate::table::Table;

verus! {

/// A validator's statement that a block extends a parent at a height.
#[derive(Debug)]
pub struct Attestation {
    /// The network that it is for.
    pub chain_id: u64,
    /// The parent of the block.
    pub parent_hash: ShellHash,
    /// The block.
    pub block_hash: ShellHash,
    /// Height of the block.
    pub block_number: u64,
    /// The attesting validator.
    pub validator: Address,
    /// The consensus round.
    pub round: u64,
    /// The signature over the rest.
    pub signature: Vec<u8>,
}

/// A recorded attestation.
#[derive(Clone, Copy, Debug)]
pub struct AttestationRecord {
    /// The block.
    pub block_hash: ShellHash,
    /// Height of the block.
    pub block_number: u64,
    /// The attesting validator.
    pub validator: Address,
    /// The validator's weight when it attested.
    pub weight: u64,
}

/// Finality as a mathematical value.
#[verifier::ext_equal]
pub struct FinalityView {
    /// Height of the last finalized block.
    pub number: u64,
    /// Hash of the last finalized block.
    pub hash: ShellHash,
    /// The recorded attestations, in order.
    pub records: Seq<AttestationRecord>,
}

/// The weight that the first `n` of some attestations give a block.
pub open spec fn attested_among(records: Seq<AttestationRecord>, block: ShellHash, n: nat) -> nat
    decreases n,
{
    if n == 0 {
        0
    } else {
        attested_among(records, block, (n - 1) as nat) + if records[n - 1].block_hash == block {
            records[n - 1].weight as nat
        } else {
            0
        }
    }
}

impl FinalityView {
    /// The weight of the attestations to a block.
    pub open spec fn attested(self, block: ShellHash) -> nat {
        attested_among(self.records, block, self.records.len())
    }

    /// Whether a validator has attested to a block.
    pub open spec fn has_attested(self, block: ShellHash, validator: Address) -> bool {
        exists|i: int|
            0 <= i < self.records.len() && (#[trigger] self.records[i]).block_hash == block
                && self.records[i].validator == validator
    }

    /// Whether a record contradicts an attestation: the same validator, the same height, another
    /// block.
    pub open spec fn contradicts(
        record: AttestationRecord,
        block: ShellHash,
        number: u64,
        validator: Address,
    ) -> bool {
        record.validator == validator && record.block_number == number && record.block_hash != block
    }

    /// The first recorded block that contradicts an attestation, among the records from `i` on.
    pub open spec fn conflict_from(
        self,
        block: ShellHash,
        number: u64,
        validator: Address,
        i: int,
    ) -> Option<ShellHash>
        decreases self.records.len() - i,
    {
        if i < 0 || i >= self.records.len() {
            None
        } else if Self::contradicts(self.records[i], block, number, validator) {
            Some(self.records[i].block_hash)
        } else {
            self.conflict_from(block, number, validator, i + 1)
        }
    }

    /// The finality after an attestation is recorded, unless the validator attested to the block
    /// before.
    pub open spec fn with_record(self, record: AttestationRecord) -> FinalityView {
        if self.has_attested(record.block_hash, record.validator) {
            self
        } else {
            FinalityView { records: self.records.push(record), ..self }
        }
    }

    /// The finality after it reaches a block: attestations up to its height are no longer needed.
    /// A block that is not above the last finalized one changes nothing.
    pub open spec fn advanced(self, number: u64, hash: ShellHash) -> FinalityView {
        if number > self.number {
            FinalityView { number, hash, records: self.records.filter(above(number)) }
        } else {
            self
        }
    }
}

/// The test that an attestation is to a block above a height.
pub open spec fn above(number: u64) -> spec_fn(AttestationRecord) -> bool {
    |record: AttestationRecord| record.block_number > number
}

/// The last finalized block, and the attestations towards the next one.
#[derive(Debug)]
pub struct FinalityState {
    number: u64,
    hash: ShellHash,
    records: Vec<AttestationRecord>,
}

impl View for FinalityState {
    type V = FinalityView;

    closed spec fn view(&self) -> FinalityView {
        FinalityView { number: self.number, hash: self.hash, records: self.records@ }
    }
}

proof fn lemma_attested_bound(records: Seq<AttestationRecord>, block: ShellHash, n: nat)
    ensures
        attested_among(records, block, n) <= n * u64::MAX,
    decreases n,
{
    if n > 0 {
        lemma_attested_bound(records, block, (n - 1) as nat);
        assert(n * u64::MAX == (n - 1) * u64::MAX + u64::MAX) by (nonlinear_arith);
    }
}

impl FinalityState {
    /// Nothing final and nothing attested.
    pub fn new() -> (r: Self)
        ensures
            r@ == (FinalityView {
                number: 0,
                hash: crate::primitives::zero_hash(),
                records: Seq::empty(),
            }),
    {
        FinalityState { number: 0, hash: ShellHash::zero(), records: Vec::new() }
    }

    /// A finalized block and nothing attested.
    pub fn with_finalized(number: u64, hash: ShellHash) -> (r: Self)
        ensures
            r@ == (FinalityView { number, hash, records: Seq::empty() }),
    {
        FinalityState { number, hash, records: Vec::new() }
    }

    /// Finality as the store has it: the recorded height with its canonical block, or nothing final
    /// where no height above zero is recorded.
    pub fn recover(chain: &ChainStore) -> (r: Self)
        ensures
            r@ == recovered(chain@),
    {
        match chain.get_finalized_number() {
            Some(stored) => {
                if stored > 0 {
                    let hash = match chain.get_block_hash_by_number(stored) {
                        Some(hash) => hash,
                        None => ShellHash::zero(),
                    };
                    FinalityState::with_finalized(stored, hash)
                } else {
                    FinalityState::new()
                }
            },
            None => FinalityState::new(),
        }
    }

    /// Height of the last finalized block.
    pub fn last_finalized_number(&self) -> (r: u64)
        ensures
            r == self@.number,
    {
        self.number
    }

    /// Hash of the last finalized block.
    pub fn last_finalized_hash(&self) -> (r: ShellHash)
        ensures
            r == self@.hash,
    {
        self.hash
    }

    /// The weight of the attestations to a block.
    fn attested(&self, block: &ShellHash) -> (r: u128)
        ensures
            r == self@.attested(*block),
    {
        let mut total: u128 = 0;
        let mut i: usize = 0;
        let ghost records = self.records@;
        while i < self.records.len()
            invariant
                i <= records.len(),
                records == self.records@,
                total == attested_among(records, *block, i as nat),
            decreases self.records.len() - i,
        {
            proof {
                lemma_attested_bound(records, *block, (i + 1) as nat);
                assert((i + 1) * u64::MAX <= u128::MAX) by (nonlinear_arith)
                    requires
                        i < u64::MAX,
                ;
            }
            if self.records[i].block_hash == *block {
                total = total + self.records[i].weight as u128;
            }
            i += 1;
        }
        total
    }

    /// The weight of the attestations to a block, held at the largest 64-bit number.
    pub fn attested_weight(&self, block: &ShellHash) -> (r: u64)
        ensures
            r == quorum::capped(self@.attested(*block)),
    {
        let wide: u128 = self.attested(block);
        if wide > u64::MAX as u128 {
            u64::MAX
        } else {
            wide as u64
        }
    }

    /// The number of attestations to a block.
    pub fn attestation_count(&self, block: &ShellHash) -> (r: usize)
        ensures
            r == self@.records.filter(|a: AttestationRecord| a.block_hash == *block).len(),
    {
        let ghost to_block = |a: AttestationRecord| a.block_hash == *block;
        let mut count: usize = 0;
        let mut i: usize = 0;
        proof {
            reveal(Seq::filter);
            assert(self.records@.take(0) =~= Seq::empty());
        }
        while i < self.records.len()
            invariant
                i <= self.records@.len(),
                count <= i,
                to_block == (|a: AttestationRecord| a.block_hash == *block),
                count == self.records@.take(i as int).filter(to_block).len(),
            decreases self.records.len() - i,
        {
            proof {
                reveal(Seq::filter);
                assert(self.records@.take(i + 1).drop_last() =~= self.records@.take(i as int));
            }
            if self.records[i].block_hash == *block {
                count += 1;
            }
            i += 1;
        }
        assert(self.records@.take(i as int) =~= self.records@);
        count
    }

    /// Another block of the same height that a validator attested to, if there is one.
    pub fn detect_equivocation(&self, block: &ShellHash, number: u64, validator: &Address) -> (r:
        Option<ShellHash>)
        ensures
            r == self@.conflict_from(*block, number, *validator, 0),
    {
        let mut i: usize = 0;
        while i < self.records.len()
            invariant
                i <= self.records@.len(),
                self@.conflict_from(*block, number, *validator, 0) == self@.conflict_from(
                    *block,
                    number,
                    *validator,
                    i as int,
                ),
            decreases self.records.len() - i,
        {
            let record = self.records[i];
            if record.validator == *validator && record.block_number == number && record.block_hash
                != *block {
                return Some(record.block_hash);
            }
            i += 1;
        }
        None
    }

    /// Records an attestation with the validator's weight, unless the validator attested to the
    /// block before. Returns whether it was recorded.
    pub fn record_attestation_weighted(
        &mut self,
        block_hash: ShellHash,
        block_number: u64,
        validator: Address,
        weight: u64,
    ) -> (r: bool)
        ensures
            r == !old(self)@.has_attested(block_hash, validator),
            final(self)@ == old(self)@.with_record(
                AttestationRecord { block_hash, block_number, validator, weight },
            ),
    {
        let mut i: usize = 0;
        while i < self.records.len()
            invariant
                i <= self.records@.len(),
                self@ == old(self)@,
                forall|j: int|
                    0 <= j < i ==> !((#[trigger] self@.records[j]).block_hash == block_hash
                        && self@.records[j].validator == validator),
            decreases self.records.len() - i,
        {
            if self.records[i].block_hash == block_hash && self.records[i].validator == validator {
                assert(self@.records[i as int].block_hash == block_hash);
                return false;
            }
            i += 1;
        }
        self.records.push(AttestationRecord { block_hash, block_number, validator, weight });
        true
    }

    /// Moves finality to a block, unless it is not above the last finalized one. Returns whether it
    /// moved.
    pub fn set_finalized_direct(&mut self, number: u64, hash: ShellHash) -> (r: bool)
        ensures
            r == (number > old(self)@.number),
            final(self)@ == old(self)@.advanced(number, hash),
    {
        if number <= self.number {
            return false;
        }
        let mut kept: Vec<AttestationRecord> = Vec::new();
        let mut i: usize = 0;
        let ghost records = self.records@;
        proof {
            reveal(Seq::filter);
            assert(records.take(0) =~= Seq::empty());
        }
        while i < self.records.len()
            invariant
                i <= records.len(),
                records == self.records@,
                kept@ == records.take(i as int).filter(above(number)),
            decreases self.records.len() - i,
        {
            proof {
                reveal(Seq::filter);
                assert(records.take(i + 1).drop_last() =~= records.take(i as int));
            }
            if self.records[i].block_number > number {
                kept.push(self.records[i]);
            }
            i += 1;
        }
        assert(records.take(i as int) =~= records);
        self.number = number;
        self.hash = hash;
        self.records = kept;
        true
    }
}

/// Finality as the store has it.
pub open spec fn recovered(view: ChainView) -> FinalityView {
    match view.finalized {
        Some(stored) => if stored > 0 {
            FinalityView {
                number: stored,
                hash: if view.canonical.contains_key(stored) {
                    view.canonical[stored]
                } else {
                    crate::primitives::zero_hash()
                },
                records: Seq::empty(),
            }
        } else {
            FinalityView { number: 0, hash: crate::primitives::zero_hash(), records: Seq::empty() }
        },
        None => FinalityView {
            number: 0,
            hash: crate::primitives::zero_hash(),
            records: Seq::empty(),
        },
    }
}

/// What an attestation leads to.
#[derive(Clone, Copy, Debug, PartialEq, Eq, Structural)]
pub enum AttestationStep {
    /// The block is not known; it may still arrive.
    UnknownBlock,
    /// The attestation counts.
    Counted {
        /// The weight that the block now has in fork choice.
        attested_weight: u64,
        /// The block has become final: write its height to the store, then call
        /// [`finish_attestation`].
        finalizes: bool,
    },
}

/// Why an attestation to a known block is refused, if it is.
pub open spec fn attestation_error(
    view: ChainView,
    finality: FinalityView,
    attestation: Attestation,
    local_chain_id: u64,
    evidence: SignerEvidence,
    weights: Map<Address, u64>,
) -> Option<NodeError> {
    let header = view.blocks[attestation.block_hash].header;
    let validator = attestation.validator;
    let fault = signature::signer_fault(evidence, None);
    let conflict = finality.conflict_from(
        attestation.block_hash,
        attestation.block_number,
        validator,
        0,
    );
    if header.parent_hash != attestation.parent_hash || header.number != attestation.block_number {
        Some(NodeError::AttestationTargetMismatch)
    } else if attestation.chain_id != local_chain_id {
        Some(
            NodeError::AttestationChainId {
                got_chain: attestation.chain_id,
                local_chain: local_chain_id,
            },
        )
    } else if fault is Some {
        Some(NodeError::AttestationSigner { validator, fault: fault->0 })
    } else if !weights.contains_key(validator) {
        Some(NodeError::InactiveValidator { validator })
    } else if conflict is Some {
        Some(
            NodeError::Equivocation {
                validator,
                conflicting: conflict->0,
                height: attestation.block_number,
            },
        )
    } else {
        None
    }
}

/// Whether a block can become final: it is the canonical one of its height, stands above the last
/// finalized block, and has a quorum of the weight behind it.
pub open spec fn is_finalizable(
    view: ChainView,
    finality: FinalityView,
    block: ShellHash,
    number: u64,
    rows: Seq<(Address, u64)>,
) -> bool {
    &&& number > finality.number
    &&& view.canonical.contains_key(number)
    &&& view.canonical[number] == block
    &&& quorum::is_quorum(finality.attested(block) as int, quorum::weight_sum(rows) as int)
}

/// Processes an attestation from the network.
///
/// An attestation to an unknown block is skipped. It is refused if it does not fit the block's
/// header or this network, if its signature does not count, if its validator is not active, or if
/// the validator attested to another block of that height. Else it is recorded once, and each time
/// it comes the block is tested anew for finality.
pub fn handle_attestation(
    finality: &mut FinalityState,
    chain: &ChainStore,
    attestation: &Attestation,
    local_chain_id: u64,
    evidence: SignerEvidence,
    weights: &Table<Address, u64>,
) -> (r: Result<AttestationStep, NodeError>)
    ensures
        !chain@.blocks.contains_key(attestation.block_hash) ==> r == Ok::<
            AttestationStep,
            NodeError,
        >(AttestationStep::UnknownBlock) && final(finality)@ == old(finality)@,
        chain@.blocks.contains_key(attestation.block_hash) ==> match attestation_error(
            chain@,
            old(finality)@,
            *attestation,
            local_chain_id,
            evidence,
            weights@,
        ) {
            Some(e) => r == Err::<AttestationStep, NodeError>(e) && final(finality)@ == old(finality)@,
            None => {
                &&& final(finality)@ == old(finality)@.with_record(
                    AttestationRecord {
                        block_hash: attestation.block_hash,
                        block_number: attestation.block_number,
                        validator: attestation.validator,
                        weight: weights@[attestation.validator],
                    },
                )
                &&& r == Ok::<AttestationStep, NodeError>(
                    AttestationStep::Counted {
                        attested_weight: quorum::capped(
                            final(finality)@.attested(attestation.block_hash),
                        ),
                        finalizes: is_finalizable(
                            chain@,
                            final(finality)@,
                            attestation.block_hash,
                            attestation.block_number,
                            weights.rows(),
                        ),
                    },
                )
            },
        },
{
    let block_hash = attestation.block_hash;
    let block_number: u64 = attestation.block_number;
    let validator = attestation.validator;
    match chain.get_block_by_hash(&block_hash) {
        None => {
            return Ok(AttestationStep::UnknownBlock);
        },
        Some(block) => {
            if block.header.parent_hash != attestation.parent_hash || block.header.number
                != block_number {
                return Err(NodeError::AttestationTargetMismatch);
            }
        },
    }
    if attestation.chain_id != local_chain_id {
        return Err(
            NodeError::AttestationChainId {
                got_chain: attestation.chain_id,
                local_chain: local_chain_id,
            },
        );
    }
    match signature::check_signer(&evidence, None) {
        Some(fault) => {
            return Err(NodeError::AttestationSigner { validator, fault });
        },
        None => {},
    }
    let weight: u64 = match weights.get(&validator) {
        Some(weight) => *weight,
        None => {
            return Err(NodeError::InactiveValidator { validator });
        },
    };
    match finality.detect_equivocation(&block_hash, block_number, &validator) {
        Some(conflicting) => {
            return Err(NodeError::Equivocation { validator, conflicting, height: block_number });
        },
        None => {},
    }
    let _ = finality.record_attestation_weighted(block_hash, block_number, validator, weight);
    let canonical: bool = chain.get_block_hash_by_number(block_number) == Some(block_hash);
    let reached: bool = quorum::has_wide_quorum(
        finality.attested(&block_hash),
        quorum::wide_total_weight(weights),
    );
    let finalizes: bool = block_number > finality.last_finalized_number() && canonical && reached;
    Ok(
        AttestationStep::Counted {
            attested_weight: finality.attested_weight(&block_hash),
            finalizes,
        },
    )
}

/// Moves finality to a block once the store has its height, and not before: where the write failed,
/// the error is returned and finality stays.
pub fn finish_attestation(
    finality: &mut FinalityState,
    block_number: u64,
    block_hash: ShellHash,
    written: Result<(), StorageError>,
) -> (r: Result<bool, NodeError>)
    ensures
        match written {
            Ok(_) => {
                &&& r == Ok::<bool, NodeError>(block_number > old(finality)@.number)
                &&& final(finality)@ == old(finality)@.advanced(block_number, block_hash)
            },
            Err(e) => {
                &&& r == Err::<bool, NodeError>(NodeError::Storage(e))
                &&& final(finality)@ == old(finality)@
            },
        },
{
    match written {
        Ok(()) => Ok(finality.set_finalized_direct(block_number, block_hash)),
        Err(e) => Err(NodeError::Storage(e)),
    }
}

/// An attestation that lacks its signature.
#[derive(Clone, Copy, Debug, PartialEq, Eq)]
pub struct AttestationDraft {
    /// The network that it is for.
    pub chain_id: u64,
    /// The parent of the block.
    pub parent_hash: ShellHash,
    /// The block.
    pub block_hash: ShellHash,
    /// Height of the block.
    pub block_number: u64,
    /// The attesting validator.
    pub validator: Address,
    /// The consensus round.
    pub round: u64,
}

/// Drafts this node's attestation to a block.
///
/// The draft names the block's parent, so that its signature binds to one fork. Without the block's
/// header there is none.
pub fn attestation_draft(
    chain: &ChainStore,
    proposer_address: Option<Address>,
    chain_id: u64,
    block_hash: ShellHash,
    block_number: u64,
) -> (r: Result<AttestationDraft, NodeError>)
    ensures
        r == if proposer_address is None {
            Err(NodeError::NotProposer)
        } else if !chain@.headers.contains_key(block_hash) {
            Err(NodeError::HeaderMissing { hash: block_hash })
        } else {
            Ok(
                AttestationDraft {
                    chain_id,
                    parent_hash: chain@.headers[block_hash].parent_hash,
                    block_hash,
                    block_number,
                    validator: proposer_address->0,
                    round: 0,
                },
            )
        },
{
    match proposer_address {
        None => Err(NodeError::NotProposer),
        Some(validator) => match chain.get_header_by_hash(&block_hash) {
            None => Err(NodeError::HeaderMissing { hash: block_hash }),
            Some(header) => Ok(
                AttestationDraft {
                    chain_id,
                    parent_hash: header.parent_hash,
                    block_hash,
                    block_number,
                    validator,
                    round: 0,
                },
            ),
        },
    }
}

/// Completes an attestation with what signing its draft came to.
pub fn create_attestation(draft: AttestationDraft, signed: Result<Vec<u8>, String>) -> (r: Result<
    Attestation,
    NodeError,
>)
    ensures
        match signed {
            Ok(signature) => r == Ok::<Attestation, NodeError>(
                Attestation {
                    chain_id: draft.chain_id,
                    parent_hash: draft.parent_hash,
                    block_hash: draft.block_hash,
                    block_number: draft.block_number,
                    validator: draft.validator,
                    round: draft.round,
                    signature,
                },
            ),
            Err(detail) => r == Err::<Attestation, NodeError>(NodeError::SigningFailed { detail }),
        },
{
    match signed {
        Ok(signature) => Ok(
            Attestation {
                chain_id: draft.chain_id,
                parent_hash: draft.parent_hash,
                block_hash: draft.block_hash,
                block_number: draft.block_number,
                validator: draft.validator,
                round: draft.round,
                signature,
            },
        ),
        Err(detail) => Err(NodeError::SigningFailed { detail }),
    }
}

/// Finality never goes back, whatever block it is moved to.
pub proof fn law_finality_never_goes_back(finality: FinalityView, number: u64, hash: ShellHash)
    ensures
        finality.advanced(number, hash).number >= finality.number,
        finality.advanced(number, hash).number == finality.number ==> finality.advanced(
            number,
            hash,
        ).hash == finality.hash,
{
}

/// An attestation that comes again changes nothing, and is tested for finality as the first time:
/// after a failed write, sending it again finalizes the block.
pub proof fn law_repeated_attestation_retries(
    view: ChainView,
    finality: FinalityView,
    record: AttestationRecord,
    rows: Seq<(Address, u64)>,
)
    ensures
        finality.with_record(record).with_record(record) == finality.with_record(record),
        is_finalizable(
            view,
            finality.with_record(record).with_record(record),
            record.block_hash,
            record.block_number,
            rows,
        ) == is_finalizable(
            view,
            finality.with_record(record),
            record.block_hash,
            record.block_number,
            rows,
        ),
{
    let once = finality.with_record(record);
    if !finality.has_attested(record.block_hash, record.validator) {
        assert(once.records[once.records.len() - 1] == record);
    }
    assert(once.has_attested(record.block_hash, record.validator));
}

/// Whether no validator has attested to two blocks of one height.
pub open spec fn no_equivocation(finality: FinalityView) -> bool {
    forall|i: int, j: int|
        0 <= i < finality.records.len() && 0 <= j < finality.records.len() && (
        #[trigger] finality.records[i]).validator == (#[trigger] finality.records[j]).validator
            && finality.records[i].block_number == finality.records[j].block_number
            ==> finality.records[i].block_hash == finality.records[j].block_hash
}

proof fn lemma_no_conflict(
    finality: FinalityView,
    block: ShellHash,
    number: u64,
    validator: Address,
    i: int,
)
    requires
        0 <= i,
        finality.conflict_from(block, number, validator, i) is None,
    ensures
        forall|j: int|
            i <= j < finality.records.len() ==> !FinalityView::contradicts(
                #[trigger] finality.records[j],
                block,
                number,
                validator,
            ),
    decreases finality.records.len() - i,
{
    if i < finality.records.len() {
        lemma_no_conflict(finality, block, number, validator, i + 1);
    }
}

/// Records without equivocation stay without it: an accepted attestation never makes a validator
/// stand for two blocks of one height, and neither does a step of finality.
pub proof fn law_no_equivocation_is_kept(
    finality: FinalityView,
    record: AttestationRecord,
    number: u64,
    hash: ShellHash,
)
    requires
        no_equivocation(finality),
    ensures
        finality.conflict_from(record.block_hash, record.block_number, record.validator, 0) is None
            ==> no_equivocation(finality.with_record(record)),
        no_equivocation(finality.advanced(number, hash)),
{
    if finality.conflict_from(record.block_hash, record.block_number, record.validator, 0) is None {
        lemma_no_conflict(finality, record.block_hash, record.block_number, record.validator, 0);
        let after = finality.with_record(record);
        assert forall|i: int, j: int|
            0 <= i < after.records.len() && 0 <= j < after.records.len() && (
            #[trigger] after.records[i]).validator == (#[trigger] after.records[j]).validator
                && after.records[i].block_number == after.records[j].block_number implies after.records[i].block_hash
            == after.records[j].block_hash by {
            if i < finality.records.len() {
                assert(after.records[i] == finality.records[i]);
            }
            if j < finality.records.len() {
                assert(after.records[j] == finality.records[j]);
            }
        }
    }
    let after = finality.advanced(number, hash);
    if number > finality.number {
        assert forall|i: int, j: int|
            0 <= i < after.records.len() && 0 <= j < after.records.len() && (
            #[trigger] after.records[i]).validator == (#[trigger] after.records[j]).validator
                && after.records[i].block_number == after.records[j].block_number implies after.records[i].block_hash
            == after.records[j].block_hash by {
            lemma_filter_source(finality.records, above(number), i);
            lemma_filter_source(finality.records, above(number), j);
            let a = choose|a: int|
                0 <= a < finality.records.len() && finality.records[a] == after.records[i];
            let b = choose|b: int|
                0 <= b < finality.records.len() && finality.records[b] == after.records[j];
            assert(finality.records[a].validator == finality.records[b].validator);
        }
    }
}

proof fn lemma_filter_source(
    records: Seq<AttestationRecord>,
    pred: spec_fn(AttestationRecord) -> bool,
    i: int,
)
    requires
        0 <= i < records.filter(pred).len(),
    ensures
        exists|a: int| 0 <= a < records.len() && records[a] == records.filter(pred)[i],
    decreases records.len(),
{
    reveal(Seq::filter);
    if records.len() > 0 {
        let init = records.drop_last();
        if i < init.filter(pred).len() {
            lemma_filter_source(init, pred, i);
            let a = choose|a: int| 0 <= a < init.len() && init[a] == init.filter(pred)[i];
            assert(records[a] == records.filter(pred)[i]);
        } else {
            assert(records[records.len() - 1] == records.filter(pred)[i]);
        }
    }
}

/// Whether no validator is recorded twice for one block.
pub open spec fn recorded_once(records: Seq<AttestationRecord>) -> bool {
    forall|i: int, j: int|
        0 <= i < j < records.len() && (#[trigger] records[i]).validator == (
        #[trigger] records[j]).validator ==> records[i].block_hash != records[j].block_hash
}

proof fn lemma_filter_recorded_once(
    records: Seq<AttestationRecord>,
    pred: spec_fn(AttestationRecord) -> bool,
)
    requires
        recorded_once(records),
    ensures
        recorded_once(records.filter(pred)),
    decreases records.len(),
{
    reveal(Seq::filter);
    if records.len() > 0 {
        let init = records.drop_last();
        assert(recorded_once(init)) by {
            assert forall|i: int, j: int|
                0 <= i < j < init.len() && (#[trigger] init[i]).validator == (
                #[trigger] init[j]).validator implies init[i].block_hash != init[j].block_hash by {
                assert(records[i].validator == records[j].validator);
            }
        }
        lemma_filter_recorded_once(init, pred);
        let before = init.filter(pred);
        let all = records.filter(pred);
        assert forall|i: int, j: int|
            0 <= i < j < all.len() && (#[trigger] all[i]).validator == (
            #[trigger] all[j]).validator implies all[i].block_hash != all[j].block_hash by {
            assert(all[i] == before[i]);
            if j < before.len() {
                assert(all[j] == before[j]);
            } else {
                lemma_filter_source(init, pred, i);
                let a = choose|a: int| 0 <= a < init.len() && init[a] == before[i];
                assert(records[a] == all[i]);
                assert(records[records.len() - 1] == all[j]);
            }
        }
    }
}

/// A validator counts once for a block, however often its attestation comes, and that stays so.
pub proof fn law_attestations_count_once(
    finality: FinalityView,
    record: AttestationRecord,
    number: u64,
    hash: ShellHash,
)
    requires
        recorded_once(finality.records),
    ensures
        recorded_once(finality.with_record(record).records),
        recorded_once(finality.advanced(number, hash).records),
{
    lemma_filter_recorded_once(finality.records, above(number));
    let after = finality.with_record(record).records;
    assert forall|i: int, j: int|
        0 <= i < j < after.len() && (#[trigger] after[i]).validator == (
        #[trigger] after[j]).validator implies after[i].block_hash != after[j].block_hash by {
        assert(after[i] == finality.records[i]);
        if j < finality.records.len() {
            assert(after[j] == finality.records[j]);
        }
    }
}

/// Whether every recorded weight is its validator's weight in a validator set.
pub open spec fn weighed_by(records: Seq<AttestationRecord>, rows: Seq<(Address, u64)>) -> bool {
    forall|i: int|
        0 <= i < records.len() ==> crate::table::rows_map(rows).contains_key(
            (#[trigger] records[i]).validator,
        ) && crate::table::rows_map(rows)[records[i].validator] == records[i].weight
}

/// The validators that attested to a block, among the first `n` of some records.
spec fn attesters(records: Seq<AttestationRecord>, block: ShellHash, n: nat) -> Set<Address>
    decreases n,
{
    if n == 0 {
        Set::empty()
    } else if records[n - 1].block_hash == block {
        attesters(records, block, (n - 1) as nat).insert(records[n - 1].validator)
    } else {
        attesters(records, block, (n - 1) as nat)
    }
}

proof fn lemma_attesters(records: Seq<AttestationRecord>, block: ShellHash, n: nat, who: Address)
    requires
        n <= records.len(),
    ensures
        attesters(records, block, n).contains(who) ==> exists|i: int|
            0 <= i < n && (#[trigger] records[i]).block_hash == block && records[i].validator == who,
    decreases n,
{
    if n > 0 {
        lemma_attesters(records, block, (n - 1) as nat, who);
        if records[n - 1].block_hash == block && records[n - 1].validator == who {
            assert(records[n - 1].block_hash == block);
        }
    }
}

proof fn lemma_attested_is_weight(
    records: Seq<AttestationRecord>,
    block: ShellHash,
    rows: Seq<(Address, u64)>,
    n: nat,
)
    requires
        n <= records.len(),
        crate::table::distinct_keys(rows),
        recorded_once(records),
        weighed_by(records, rows),
    ensures
        attested_among(records, block, n) == quorum::weight_of(rows, attesters(records, block, n)),
    decreases n,
{
    if n == 0 {
        quorum::lemma_no_members(rows, rows.len());
    } else {
        lemma_attested_is_weight(records, block, rows, (n - 1) as nat);
        let last = records[n - 1];
        if last.block_hash == block {
            let before = attesters(records, block, (n - 1) as nat);
            lemma_attesters(records, block, (n - 1) as nat, last.validator);
            assert(!before.contains(last.validator)) by {
                if before.contains(last.validator) {
                    let i = choose|i: int|
                        0 <= i < n - 1 && (#[trigger] records[i]).block_hash == block
                            && records[i].validator == last.validator;
                    assert(records[i].validator == records[n - 1].validator);
                }
            }
            quorum::lemma_one_more_member(rows, before, last.validator);
        }
    }
}

/// Two blocks of one height never both gather a quorum of attestations: while no validator is
/// recorded for two blocks of a height, and each counts with its weight in the present set, more
/// than two thirds stand behind at most one of them.
pub proof fn law_one_block_per_height_has_quorum(
    finality: FinalityView,
    rows: Seq<(Address, u64)>,
    a: ShellHash,
    b: ShellHash,
    number: u64,
)
    requires
        a != b,
        no_equivocation(finality),
        recorded_once(finality.records),
        crate::table::distinct_keys(rows),
        weighed_by(finality.records, rows),
        forall|i: int|
            0 <= i < finality.records.len() && ((#[trigger] finality.records[i]).block_hash == a
                || finality.records[i].block_hash == b) ==> finality.records[i].block_number
                == number,
    ensures
        !(quorum::is_quorum(finality.attested(a) as int, quorum::weight_sum(rows) as int)
            && quorum::is_quorum(finality.attested(b) as int, quorum::weight_sum(rows) as int)),
{
    let records = finality.records;
    let n = records.len();
    if quorum::is_quorum(finality.attested(a) as int, quorum::weight_sum(rows) as int)
        && quorum::is_quorum(finality.attested(b) as int, quorum::weight_sum(rows) as int) {
        lemma_attested_is_weight(records, a, rows, n);
        lemma_attested_is_weight(records, b, rows, n);
        quorum::law_quorums_intersect(rows, attesters(records, a, n), attesters(records, b, n));
        let k = choose|k: int|
            0 <= k < rows.len() && rows[k].1 > 0 && attesters(records, a, n).contains(
                (#[trigger] rows[k]).0,
            ) && attesters(records, b, n).contains(rows[k].0);
        lemma_attesters(records, a, n, rows[k].0);
        lemma_attesters(records, b, n, rows[k].0);
        let i = choose|i: int|
            0 <= i < n && (#[trigger] records[i]).block_hash == a && records[i].validator
                == rows[k].0;
        let j = choose|j: int|
            0 <= j < n && (#[trigger] records[j]).block_hash == b && records[j].validator
                == rows[k].0;
        assert(records[i].validator == records[j].validator);
        assert(false);
    }
}

proof fn lemma_attested_prefix(
    records: Seq<AttestationRecord>,
    more: Seq<AttestationRecord>,
    block: ShellHash,
    n: nat,
)
    requires
        n <= records.len(),
        n <= more.len(),
        forall|i: int| 0 <= i < n ==> records[i] == more[i],
    ensures
        attested_among(records, block, n) == attested_among(more, block, n),
    decreases n,
{
    if n > 0 {
        lemma_attested_prefix(records, more, block, (n - 1) as nat);
        assert(records[n - 1] == more[n - 1]);
    }
}

/// Attested weight adds up: where nothing is recorded no block has any, an attestation adds its
/// validator's weight to its own block and to no other, and one that came before adds nothing.
pub proof fn law_attested_weight_adds_up(
    finality: FinalityView,
    record: AttestationRecord,
    block: ShellHash,
)
    ensures
        finality.records.len() == 0 ==> finality.attested(block) == 0,
        (exists|i: int|
            0 <= i < finality.records.len() && (#[trigger] finality.records[i]).block_hash
                == record.block_hash && finality.records[i].validator == record.validator)
            ==> finality.with_record(record).attested(block) == finality.attested(block),
        (forall|i: int|
            0 <= i < finality.records.len() && (#[trigger] finality.records[i]).validator
                == record.validator ==> finality.records[i].block_hash != record.block_hash) ==> {
            &&& finality.with_record(record).attested(record.block_hash) == finality.attested(
                record.block_hash,
            ) + record.weight
            &&& block != record.block_hash ==> finality.with_record(record).attested(block)
                == finality.attested(block)
        },
        finality.with_record(record).number == finality.number,
        finality.with_record(record).hash == finality.hash,
{
    let after = finality.with_record(record);
    if finality.has_attested(record.block_hash, record.validator) {
    } else {
        assert(after.records == finality.records.push(record));
        lemma_attested_prefix(finality.records, after.records, block, finality.records.len());
        lemma_attested_prefix(
            finality.records,
            after.records,
            record.block_hash,
            finality.records.len(),
        );
        assert(after.records[after.records.len() - 1] == record);
    }
}

/// A canonical block above the finalized height becomes final exactly when more than two thirds of a
/// total weight that is not zero have attested to it. How far above it stands makes no difference:
/// no earlier height has to become final first.
pub proof fn law_quorum_finalizes_at_any_height(
    view: ChainView,
    finality: FinalityView,
    block: ShellHash,
    number: u64,
    rows: Seq<(Address, u64)>,
)
    requires
        number > finality.number,
        view.canonical.contains_key(number),
        view.canonical[number] == block,
    ensures
        is_finalizable(view, finality, block, number, rows) <==> quorum::weight_sum(rows) > 0 && 3
            * finality.attested(block) > 2 * quorum::weight_sum(rows),
{
}

/// Neither a block that is not the canonical one of its height nor one that is no higher than the
/// finalized block becomes final, whatever weight is behind it.
pub proof fn law_only_canonical_blocks_above_finality_finalize(
    view: ChainView,
    finality: FinalityView,
    block: ShellHash,
    number: u64,
    rows: Seq<(Address, u64)>,
)
    requires
        number <= finality.number || !view.canonical.contains_key(number) || view.canonical[number]
            != block,
    ensures
        !is_finalizable(view, finality, block, number, rows),
{
}

proof fn lemma_first_conflict(
    finality: FinalityView,
    block: ShellHash,
    number: u64,
    validator: Address,
    from: int,
)
    requires
        0 <= from <= finality.records.len(),
    ensures
        match finality.conflict_from(block, number, validator, from) {
            None => forall|j: int|
                from <= j < finality.records.len() ==> !FinalityView::contradicts(
                    #[trigger] finality.records[j],
                    block,
                    number,
                    validator,
                ),
            Some(other) => exists|i: int|
                from <= i < finality.records.len() && (#[trigger] finality.records[i]).block_hash
                    == other && FinalityView::contradicts(
                    finality.records[i],
                    block,
                    number,
                    validator,
                ) && forall|j: int|
                    from <= j < i ==> !FinalityView::contradicts(
                        #[trigger] finality.records[j],
                        block,
                        number,
                        validator,
                    ),
        },
    decreases finality.records.len() - from,
{
    if from < finality.records.len() {
        if FinalityView::contradicts(finality.records[from], block, number, validator) {
            assert(finality.records[from].block_hash == finality.conflict_from(
                block,
                number,
                validator,
                from,
            )->0);
        } else {
            lemma_first_conflict(finality, block, number, validator, from + 1);
            if finality.conflict_from(block, number, validator, from + 1) is Some {
                let other = finality.conflict_from(block, number, validator, from + 1)->0;
                let i = choose|i: int|
                    from + 1 <= i < finality.records.len() && (
                    #[trigger] finality.records[i]).block_hash == other
                        && FinalityView::contradicts(
                        finality.records[i],
                        block,
                        number,
                        validator,
                    ) && forall|j: int|
                        from + 1 <= j < i ==> !FinalityView::contradicts(
                            #[trigger] finality.records[j],
                            block,
                            number,
                            validator,
                        );
                assert(finality.records[i].block_hash == other);
            }
        }
    }
}

/// A validator contradicts itself exactly when it has attested to another block of the same height,
/// and the block that is named is the first such one on record.
pub proof fn law_equivocation_is_found(
    finality: FinalityView,
    block: ShellHash,
    number: u64,
    validator: Address,
)
    ensures
        finality.conflict_from(block, number, validator, 0) is None <==> forall|j: int|
            0 <= j < finality.records.len() && (#[trigger] finality.records[j]).validator
                == validator && finality.records[j].block_number == number
                ==> finality.records[j].block_hash == block,
        finality.conflict_from(block, number, validator, 0) matches Some(other) ==> other != block
            && exists|i: int|
            0 <= i < finality.records.len() && (#[trigger] finality.records[i]).block_hash == other
                && finality.records[i].validator == validator && finality.records[i].block_number
                == number && forall|j: int|
                0 <= j < i && (#[trigger] finality.records[j]).validator == validator
                    && finality.records[j].block_number == number
                    ==> finality.records[j].block_hash == block,
{
    lemma_first_conflict(finality, block, number, validator, 0);
    let found = finality.conflict_from(block, number, validator, 0);
    if found is Some {
        let other = found->0;
        let i = choose|i: int|
            0 <= i < finality.records.len() && (#[trigger] finality.records[i]).block_hash == other
                && FinalityView::contradicts(finality.records[i], block, number, validator)
                && forall|j: int|
                0 <= j < i ==> !FinalityView::contradicts(
                    #[trigger] finality.records[j],
                    block,
                    number,
                    validator,
                );
        assert(finality.records[i].block_hash == other);
        assert forall|j: int|
            0 <= j < i && (#[trigger] finality.records[j]).validator == validator
                && finality.records[j].block_number == number implies finality.records[j].block_hash
            == block by {
            assert(!FinalityView::contradicts(finality.records[j], block, number, validator));
        }
    } else {
        assert forall|j: int|
            0 <= j < finality.records.len() && (#[trigger] finality.records[j]).validator
                == validator && finality.records[j].block_number
                == number implies finality.records[j].block_hash == block by {
            assert(!FinalityView::contradicts(finality.records[j], block, number, validator));
        }
    }
}

/// An attestation to a known block is accepted exactly when it names the height and the parent of
/// the block's header and this network, its signature counts, its validator is active, and the
/// validator has attested to no other block of that height.
pub proof fn law_accepted_attestations(
    view: ChainView,
    finality: FinalityView,
    attestation: Attestation,
    local_chain_id: u64,
    evidence: SignerEvidence,
    weights: Map<Address, u64>,
)
    ensures
        attestation_error(view, finality, attestation, local_chain_id, evidence, weights) is None
            <==> {
            let header = view.blocks[attestation.block_hash].header;
            &&& header.number == attestation.block_number
            &&& header.parent_hash == attestation.parent_hash
            &&& attestation.chain_id == local_chain_id
            &&& evidence.key_known && evidence.inferred is Some && evidence.allowed
                && evidence.verdict is Valid
            &&& weights.contains_key(attestation.validator)
            &&& forall|j: int|
                0 <= j < finality.records.len() && (#[trigger] finality.records[j]).validator
                    == attestation.validator && finality.records[j].block_number
                    == attestation.block_number ==> finality.records[j].block_hash
                    == attestation.block_hash
        },
{
    law_equivocation_is_found(
        finality,
        attestation.block_hash,
        attestation.block_number,
        attestation.validator,
    );
}

proof fn lemma_kept_records(
    records: Seq<AttestationRecord>,
    keep: spec_fn(AttestationRecord) -> bool,
    record: AttestationRecord,
)
    ensures
        records.filter(keep).contains(record) <==> records.contains(record) && keep(record),
    decreases records.len(),
{
    reveal(Seq::filter);
    if records.len() > 0 {
        let init = records.drop_last();
        let kept = init.filter(keep);
        let all = records.filter(keep);
        lemma_kept_records(init, keep, record);
        if all.contains(record) {
            let k = choose|k: int| 0 <= k < all.len() && all[k] == record;
            if k < kept.len() {
                assert(kept[k] == record);
                let j = choose|j: int| 0 <= j < init.len() && init[j] == record;
                assert(records[j] == record);
            } else {
                assert(records[records.len() - 1] == record);
            }
        }
        if records.contains(record) && keep(record) {
            let j = choose|j: int| 0 <= j < records.len() && records[j] == record;
            if j < init.len() {
                assert(init[j] == record);
                let k = choose|k: int| 0 <= k < kept.len() && kept[k] == record;
                assert(all[k] == record);
            } else {
                assert(all[all.len() - 1] == record);
            }
        }
    }
}

/// A step of finality to a higher block takes over its height and hash, keeps every attestation to a
/// block above it and drops the others. A step to a block that is no higher changes nothing.
pub proof fn law_finality_step(
    finality: FinalityView,
    number: u64,
    hash: ShellHash,
    record: AttestationRecord,
)
    ensures
        ({
            let after = finality.advanced(number, hash);
            &&& number > finality.number ==> {
                &&& after.number == number
                &&& after.hash == hash
                &&& after.records.contains(record) <==> finality.records.contains(record)
                    && record.block_number > number
            }
            &&& number <= finality.number ==> after == finality
        }),
{
    if number > finality.number {
        lemma_kept_records(finality.records, above(number), record);
    }
}

/// Finality survives a restart: what was written as finalized is what is recovered, with the
/// canonical block of that height, and with nothing attested. Where nothing above the genesis block
/// was written, nothing is final.
pub proof fn law_finality_is_recovered(view: ChainView, number: u64)
    ensures
        ({
            let after = recovered(view.apply(crate::chain::StoreOp::SetFinalized(number)));
            &&& after.number == number
            &&& number > 0 && view.canonical.contains_key(number) ==> after.hash
                == view.canonical[number]
            &&& number == 0 || !view.canonical.contains_key(number) ==> after.hash
                == crate::primitives::zero_hash()
            &&& after.records.len() == 0
        }),
        view.finalized is None ==> recovered(view).number == 0 && recovered(view).hash
            == crate::primitives::zero_hash() && recovered(view).records.len() == 0,
{
}

/// An attestation to a known block counts exactly if it is a good one, and the block then finalizes
/// exactly if it is the canonical one of a height above the finalized one and the recorded
/// attestations to it weigh more than two thirds of a total that is not zero. One to an unknown block
/// and one that is refused change nothing.
pub proof fn law_what_an_attestation_does(
    finality: &mut FinalityState,
    chain: ChainStore,
    attestation: Attestation,
    local_chain_id: u64,
    evidence: SignerEvidence,
    weights: Table<Address, u64>,
    step: Result<AttestationStep, NodeError>,
)
    requires
        call_ensures(
            handle_attestation,
            (finality, &chain, &attestation, local_chain_id, evidence, &weights),
            step,
        ),
    ensures
        ({
            let block = attestation.block_hash;
            let number = attestation.block_number;
            let header = chain@.blocks[block].header;
            let total = quorum::weight_sum(weights.rows());
            let weight = final(finality)@.attested(block);
            let good = chain@.blocks.contains_key(block) && header.number == number
                && header.parent_hash == attestation.parent_hash && attestation.chain_id
                == local_chain_id && evidence.key_known && evidence.inferred is Some
                && evidence.allowed && evidence.verdict is Valid && weights@.contains_key(
                attestation.validator,
            ) && forall|j: int|
                0 <= j < old(finality)@.records.len() && (
                #[trigger] old(finality)@.records[j]).validator == attestation.validator && old(
                    finality,
                )@.records[j].block_number == number ==> old(finality)@.records[j].block_hash
                    == block;
            &&& step matches Ok(AttestationStep::Counted { attested_weight, finalizes }) ==> {
                &&& good
                &&& weight <= u64::MAX ==> attested_weight == weight
                &&& finalizes <==> number > old(finality)@.number && chain@.canonical.contains_key(
                    number,
                ) && chain@.canonical[number] == block && total > 0 && 3 * weight > 2 * total
                &&& final(finality)@.number == old(finality)@.number
                &&& exists|j: int|
                    0 <= j < final(finality)@.records.len() && (
                    #[trigger] final(finality)@.records[j]).block_hash == block
                        && final(finality)@.records[j].validator == attestation.validator
            }
            &&& good ==> step is Ok
            &&& !good ==> final(finality)@ == old(finality)@
            &&& step is Err ==> chain@.blocks.contains_key(block)
            &&& step == Ok::<AttestationStep, NodeError>(AttestationStep::UnknownBlock)
                <==> !chain@.blocks.contains_key(block)
        }),
{
    let block = attestation.block_hash;
    let before = old(finality)@;
    let after = final(finality)@;
    law_accepted_attestations(
        chain@,
        before,
        attestation,
        local_chain_id,
        evidence,
        weights@,
    );
    if chain@.blocks.contains_key(block) && attestation_error(
        chain@,
        before,
        attestation,
        local_chain_id,
        evidence,
        weights@,
    ) is None {
        if before.has_attested(block, attestation.validator) {
            let j = choose|j: int|
                0 <= j < before.records.len() && (#[trigger] before.records[j]).block_hash == block
                    && before.records[j].validator == attestation.validator;
            assert(after.records[j].block_hash == block);
        } else {
            assert(after.records[after.records.len() - 1].block_hash == block);
        }
        if attestation.block_number > before.number && chain@.canonical.contains_key(
            attestation.block_number,
        ) && chain@.canonical[attestation.block_number] == block {
            law_quorum_finalizes_at_any_height(
                chain@,
                after,
                block,
                attestation.block_number,
                weights.rows(),
            );
        } else {
            law_only_canonical_blocks_above_finality_finalize(
                chain@,
                after,
                block,
                attestation.block_number,
                weights.rows(),
            );
        }
    }
}

/// Finality moves to a block exactly if its height was written and is above the finalized one; else it
/// stays where it is.
pub proof fn law_when_finality_moves(
    finality: &mut FinalityState,
    number: u64,
    hash: ShellHash,
    written: Result<(), StorageError>,
    moved: Result<bool, NodeError>,
)
    requires
        call_ensures(finish_attestation, (finality, number, hash, written), moved),
    ensures
        written is Ok && number > old(finality)@.number ==> moved == Ok::<bool, NodeError>(true)
            && final(finality)@.number == number && final(finality)@.hash == hash,
        written is Ok && number <= old(finality)@.number ==> moved == Ok::<bool, NodeError>(false)
            && final(finality)@ == old(finality)@,
        written is Err ==> moved is Err && final(finality)@ == old(finality)@,
{
}

/// A node attests to a block in the name of its proposer, for its own network, on the parent that the
/// block's header names, and with the signature that it was given; without a proposer, a known header
/// or a signature there is no attestation.
pub proof fn law_own_attestations(
    chain: ChainStore,
    proposer: Option<Address>,
    chain_id: u64,
    hash: ShellHash,
    number: u64,
    drafted: Result<AttestationDraft, NodeError>,
    signed: Result<Vec<u8>, String>,
    created: Result<Attestation, NodeError>,
)
    requires
        call_ensures(attestation_draft, (&chain, proposer, chain_id, hash, number), drafted),
        drafted matches Ok(draft) ==> call_ensures(create_attestation, (draft, signed), created),
    ensures
        drafted is Ok <==> proposer is Some && chain@.headers.contains_key(hash),
        drafted is Ok && signed is Ok ==> {
            &&& created matches Ok(a)
            &&& a.validator == proposer->0
            &&& a.chain_id == chain_id
            &&& a.parent_hash == chain@.headers[hash].parent_hash
            &&& a.block_hash == hash
            &&& a.block_number == number
            &&& a.round == 0
            &&& a.signature == signed->Ok_0
        },
        drafted is Ok && signed is Err ==> created is Err,
{
}

} // verus!
