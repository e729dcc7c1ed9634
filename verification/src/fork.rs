//! Adoption of a preferred fork, and the fork-choice tree.

use vstd::prelude::*;

use crate::chain::{Block, BlockView, ChainStore, ChainView, SignedTransaction};
use crate::error::{NodeError, Segment};
use crate::primitives::{Address, ShellHash};
use crate::quorum;
use crate::table::Table;

verus! {

/// The score of a block in fork choice.
#[derive(Clone, Copy, Debug, PartialEq, Eq)]
pub struct ForkScore {
    /// Height of the block.
    pub block_number: u64,
    /// Weight of the validators that attested to it.
    pub attested_weight: u64,
}

/// What fork choice has to say about the block that it prefers.
#[derive(Debug)]
pub struct ForkPreference {
    /// The preferred block.
    pub preferred_hash: ShellHash,
    /// Its score.
    pub score: Option<ForkScore>,
    /// Its common ancestor with the canonical head.
    pub ancestor_hash: Option<ShellHash>,
    /// The blocks from the ancestor, without it, to the canonical head, oldest first.
    pub old_hashes: Vec<ShellHash>,
    /// The blocks from the ancestor, without it, to the preferred block, oldest first.
    pub new_hashes: Vec<ShellHash>,
}

/// The adoption of a preferred fork in place of the canonical chain above a common ancestor.
#[derive(Debug)]
pub struct ForkAdoptionPlan {
    /// The tip of the fork.
    pub preferred_hash: ShellHash,
    /// Height of the tip of the fork.
    pub preferred_number: u64,
    /// Height of the canonical head.
    pub canonical_number: u64,
    /// The common ancestor.
    pub ancestor_hash: ShellHash,
    /// Height of the common ancestor.
    pub ancestor_number: u64,
    /// The canonical blocks above the ancestor, oldest first.
    pub old_chain: Vec<Block>,
    /// The blocks of the fork, oldest first.
    pub new_chain: Vec<Block>,
    /// The transactions that only the canonical blocks hold, each once.
    pub reverted_txs: Vec<SignedTransaction>,
}

/// An adoption plan as a mathematical value.
#[verifier::ext_equal]
pub struct ForkPlanView {
    pub preferred_hash: ShellHash,
    pub preferred_number: u64,
    pub canonical_number: u64,
    pub ancestor_hash: ShellHash,
    pub ancestor_number: u64,
    pub old_chain: Seq<BlockView>,
    pub new_chain: Seq<BlockView>,
    pub reverted_txs: Seq<SignedTransaction>,
}

impl View for ForkAdoptionPlan {
    type V = ForkPlanView;

    open spec fn view(&self) -> ForkPlanView {
        ForkPlanView {
            preferred_hash: self.preferred_hash,
            preferred_number: self.preferred_number,
            canonical_number: self.canonical_number,
            ancestor_hash: self.ancestor_hash,
            ancestor_number: self.ancestor_number,
            old_chain: views(self.old_chain@),
            new_chain: views(self.new_chain@),
            reverted_txs: self.reverted_txs@,
        }
    }
}

/// Blocks as mathematical values.
pub open spec fn views(blocks: Seq<Block>) -> Seq<BlockView> {
    Seq::new(blocks.len(), |i: int| blocks[i]@)
}

/// The transactions of some blocks, in order.
pub open spec fn all_transactions(blocks: Seq<BlockView>) -> Seq<SignedTransaction>
    decreases blocks.len(),
{
    if blocks.len() == 0 {
        Seq::empty()
    } else {
        all_transactions(blocks.drop_last()) + blocks.last().transactions
    }
}

/// The first `n` of some transactions, without those whose hash is among the adopted ones or came
/// before.
pub open spec fn unique_unadopted(
    txs: Seq<SignedTransaction>,
    adopted: Set<ShellHash>,
    n: nat,
) -> Seq<SignedTransaction>
    decreases n,
{
    if n == 0 {
        Seq::empty()
    } else {
        let before = unique_unadopted(txs, adopted, (n - 1) as nat);
        let tx = txs[n - 1];
        if adopted.contains(tx.hash) || crate::chain::hashes_of(txs.take(n - 1)).contains(tx.hash) {
            before
        } else {
            before.push(tx)
        }
    }
}

/// The transactions of the old chain that the new one does not hold, each once, in order.
pub open spec fn unique_reverted(old_chain: Seq<BlockView>, new_chain: Seq<BlockView>) -> Seq<
    SignedTransaction,
> {
    let txs = all_transactions(old_chain);
    unique_unadopted(txs, crate::chain::hashes_of(all_transactions(new_chain)), txs.len())
}

fn flatten(blocks: &Vec<Block>) -> (r: Vec<SignedTransaction>)
    ensures
        r@ == all_transactions(views(blocks@)),
{
    let mut out: Vec<SignedTransaction> = Vec::new();
    let ghost all = views(blocks@);
    let mut n: usize = 0;
    assert(all.take(0) =~= Seq::empty());
    while n < blocks.len()
        invariant
            n <= blocks@.len(),
            all == views(blocks@),
            out@ == all_transactions(all.take(n as int)),
        decreases blocks.len() - n,
    {
        let ghost before = out@;
        let block = &blocks[n];
        let mut i: usize = 0;
        assert(before + block.transactions@.take(0) =~= before);
        while i < block.transactions.len()
            invariant
                i <= block.transactions@.len(),
                out@ == before + block.transactions@.take(i as int),
            decreases block.transactions.len() - i,
        {
            out.push(block.transactions[i]);
            assert(out@ =~= before + block.transactions@.take(i + 1));
            i += 1;
        }
        proof {
            assert(block.transactions@.take(i as int) =~= block.transactions@);
            assert(all.take(n + 1).drop_last() =~= all.take(n as int));
            assert(all.take(n + 1).last() == block@);
        }
        n += 1;
    }
    assert(all.take(n as int) =~= all);
    out
}

fn has_tx(txs: &Vec<SignedTransaction>, end: usize, hash: &ShellHash) -> (r: bool)
    requires
        end <= txs@.len(),
    ensures
        r == crate::chain::hashes_of(txs@.take(end as int)).contains(*hash),
{
    let mut i: usize = 0;
    let ghost part = txs@.take(end as int);
    while i < end
        invariant
            i <= end,
            end <= txs@.len(),
            part == txs@.take(end as int),
            forall|j: int| 0 <= j < i ==> (#[trigger] part[j]).hash != *hash,
        decreases end - i,
    {
        if txs[i].hash == *hash {
            assert(part[i as int].hash == *hash);
            return true;
        }
        assert(part[i as int].hash != *hash);
        i += 1;
    }
    false
}

/// The transactions of the old chain that the new one does not hold, each once, in order.
pub fn unique_reverted_transactions(old_chain: &Vec<Block>, new_chain: &Vec<Block>) -> (r: Vec<
    SignedTransaction,
>)
    ensures
        r@ == unique_reverted(views(old_chain@), views(new_chain@)),
{
    let txs = flatten(old_chain);
    let adopted = flatten(new_chain);
    let ghost adopted_hashes = crate::chain::hashes_of(all_transactions(views(new_chain@)));
    assert(adopted@.take(adopted@.len() as int) =~= adopted@);
    let mut out: Vec<SignedTransaction> = Vec::new();
    let mut n: usize = 0;
    while n < txs.len()
        invariant
            n <= txs@.len(),
            adopted@.take(adopted@.len() as int) == adopted@,
            adopted_hashes == crate::chain::hashes_of(adopted@),
            out@ == unique_unadopted(txs@, adopted_hashes, n as nat),
        decreases txs.len() - n,
    {
        let tx = txs[n];
        if !has_tx(&adopted, adopted.len(), &tx.hash) && !has_tx(&txs, n, &tx.hash) {
            out.push(tx);
        }
        n += 1;
    }
    out
}

/// What is wrong with the block at position `i` of a segment on top of an ancestor.
pub open spec fn place_error(
    view: ChainView,
    segment: Segment,
    ancestor: ShellHash,
    ancestor_number: u64,
    hashes: Seq<ShellHash>,
    require_canonical: bool,
    i: int,
) -> Option<NodeError> {
    let hash = hashes[i];
    let block = view.blocks[hash];
    let number = (ancestor_number + i + 1) as u64;
    let parent = crate::reorg::expected_parent(ancestor, hashes, i);
    if ancestor_number + i + 1 > u64::MAX {
        Some(NodeError::SegmentHeightOverflow { segment })
    } else if !view.blocks.contains_key(hash) {
        Some(NodeError::SegmentBlockMissing { segment, hash })
    } else if block.hash != hash || block.header.number != number || block.header.parent_hash
        != parent {
        Some(
            NodeError::SegmentContinuityBroken {
                segment,
                hash,
                expected_number: number,
                expected_parent: parent,
                got_hash: block.hash,
                got_number: block.header.number,
                got_parent: block.header.parent_hash,
            },
        )
    } else if require_canonical && !(view.canonical.contains_key(number) && view.canonical[number]
        == hash) {
        Some(NodeError::SegmentNotCanonical { segment, hash, number })
    } else {
        None
    }
}

/// What is wrong with the first faulty block among the first `n` of a segment.
pub open spec fn load_error(
    view: ChainView,
    segment: Segment,
    ancestor: ShellHash,
    ancestor_number: u64,
    hashes: Seq<ShellHash>,
    require_canonical: bool,
    n: nat,
) -> Option<NodeError>
    decreases n,
{
    if n == 0 {
        None
    } else {
        match load_error(
            view,
            segment,
            ancestor,
            ancestor_number,
            hashes,
            require_canonical,
            (n - 1) as nat,
        ) {
            Some(e) => Some(e),
            None => place_error(
                view,
                segment,
                ancestor,
                ancestor_number,
                hashes,
                require_canonical,
                n - 1,
            ),
        }
    }
}

/// The blocks of some hashes.
pub open spec fn blocks_of(view: ChainView, hashes: Seq<ShellHash>) -> Seq<BlockView> {
    Seq::new(hashes.len(), |i: int| view.blocks[hashes[i]])
}

proof fn lemma_first_load_fault(
    view: ChainView,
    segment: Segment,
    ancestor: ShellHash,
    ancestor_number: u64,
    hashes: Seq<ShellHash>,
    require_canonical: bool,
    m: nat,
    n: nat,
)
    requires
        m <= n,
        load_error(view, segment, ancestor, ancestor_number, hashes, require_canonical, m) is Some,
    ensures
        load_error(view, segment, ancestor, ancestor_number, hashes, require_canonical, n)
            == load_error(view, segment, ancestor, ancestor_number, hashes, require_canonical, m),
    decreases n,
{
    if m < n {
        lemma_first_load_fault(
            view,
            segment,
            ancestor,
            ancestor_number,
            hashes,
            require_canonical,
            m,
            (n - 1) as nat,
        );
    }
}

/// Loads the blocks of a segment, checking that they stand on the ancestor without a gap and, where
/// that is asked for, that they are canonical.
pub fn load_fork_segment(
    chain_store: &ChainStore,
    segment: Segment,
    ancestor_hash: ShellHash,
    ancestor_number: u64,
    hashes: &Vec<ShellHash>,
    require_canonical: bool,
) -> (r: Result<Vec<Block>, NodeError>)
    ensures
        match load_error(
            chain_store@,
            segment,
            ancestor_hash,
            ancestor_number,
            hashes@,
            require_canonical,
            hashes@.len(),
        ) {
            Some(e) => r == Err::<Vec<Block>, NodeError>(e),
            None => r matches Ok(blocks) && views(blocks@) == blocks_of(chain_store@, hashes@),
        },
{
    let ghost view = chain_store@;
    let mut blocks: Vec<Block> = Vec::new();
    let mut parent = ancestor_hash;
    let mut i: usize = 0;
    while i < hashes.len()
        invariant
            i <= hashes@.len(),
            view == chain_store@,
            parent == crate::reorg::expected_parent(ancestor_hash, hashes@, i as int),
            load_error(
                view,
                segment,
                ancestor_hash,
                ancestor_number,
                hashes@,
                require_canonical,
                i as nat,
            ) is None,
            blocks@.len() == i,
            forall|j: int| 0 <= j < i ==> (#[trigger] blocks@[j])@ == view.blocks[hashes@[j]],
        decreases hashes.len() - i,
    {
        let hash = hashes[i];
        proof {
            let fault = place_error(
                view,
                segment,
                ancestor_hash,
                ancestor_number,
                hashes@,
                require_canonical,
                i as int,
            );
            assert(load_error(
                view,
                segment,
                ancestor_hash,
                ancestor_number,
                hashes@,
                require_canonical,
                (i + 1) as nat,
            ) == fault);
            if fault is Some {
                lemma_first_load_fault(
                    view,
                    segment,
                    ancestor_hash,
                    ancestor_number,
                    hashes@,
                    require_canonical,
                    (i + 1) as nat,
                    hashes@.len(),
                );
            }
        }
        let number: u64 = match ancestor_number.checked_add(i as u64) {
            Some(n) => match n.checked_add(1) {
                Some(m) => m,
                None => {
                    return Err(NodeError::SegmentHeightOverflow { segment });
                },
            },
            None => {
                return Err(NodeError::SegmentHeightOverflow { segment });
            },
        };
        match chain_store.get_block_by_hash(&hash) {
            Some(block) => {
                if block.hash != hash || block.header.number != number || block.header.parent_hash
                    != parent {
                    return Err(
                        NodeError::SegmentContinuityBroken {
                            segment,
                            hash,
                            expected_number: number,
                            expected_parent: parent,
                            got_hash: block.hash,
                            got_number: block.header.number,
                            got_parent: block.header.parent_hash,
                        },
                    );
                }
                if require_canonical && chain_store.get_block_hash_by_number(number) != Some(hash) {
                    return Err(NodeError::SegmentNotCanonical { segment, hash, number });
                }
                blocks.push(block.duplicate());
            },
            None => {
                return Err(NodeError::SegmentBlockMissing { segment, hash });
            },
        }
        parent = hash;
        i += 1;
    }
    assert(views(blocks@) =~= blocks_of(view, hashes@));
    Ok(blocks)
}

/// Whether the preferred block is worth adopting at all: it is not the canonical head and stands
/// higher than it.
pub open spec fn is_ahead(preference: ForkPreference, head: BlockView) -> bool {
    preference.preferred_hash != head.hash && preference.score->0.block_number > head.header.number
}

/// Why the preferred fork cannot be adopted although it is ahead and its paths are known, if there
/// is a reason.
pub open spec fn adoption_error(
    view: ChainView,
    preference: ForkPreference,
    ancestor_number: u64,
    finalized_number: u64,
    finalized_hash: ShellHash,
) -> Option<NodeError> {
    let ancestor = preference.ancestor_hash->0;
    let old_error = load_error(
        view,
        Segment::Rollback,
        ancestor,
        ancestor_number,
        preference.old_hashes@,
        true,
        preference.old_hashes@.len(),
    );
    let new_error = load_error(
        view,
        Segment::Preferred,
        ancestor,
        ancestor_number,
        preference.new_hashes@,
        false,
        preference.new_hashes@.len(),
    );
    if ancestor_number < finalized_number || (finalized_number > 0 && ancestor_number
        == finalized_number && ancestor != finalized_hash) {
        Some(
            NodeError::ForkCrossesFinalized {
                preferred: preference.preferred_hash,
                finalized: finalized_number,
                finalized_hash,
            },
        )
    } else if !(view.canonical.contains_key(ancestor_number) && view.canonical[ancestor_number]
        == ancestor) {
        Some(NodeError::ForkAncestorNotCanonical { ancestor_hash: ancestor, ancestor_number })
    } else if old_error is Some {
        old_error
    } else {
        new_error
    }
}

/// The plan to adopt the preferred fork, none where it is not to be adopted now, or the reason why
/// it cannot be.
pub open spec fn fork_plan(
    view: ChainView,
    preference: ForkPreference,
    total_weight: u64,
    finalized_number: u64,
    finalized_hash: ShellHash,
) -> Result<Option<ForkPlanView>, NodeError> {
    let preferred = preference.preferred_hash;
    match (view.head_block(), preference.score) {
        (None, _) => Err(NodeError::NoGenesis),
        (Some(head), None) => Err(NodeError::ForkUnscored { preferred }),
        (Some(head), Some(score)) => {
            let ancestor = preference.ancestor_hash->0;
            let new_len = preference.new_hashes@.len();
            let old_len = preference.old_hashes@.len();
            let ancestor_number = (score.block_number - new_len) as u64;
            if !is_ahead(preference, head) {
                Ok(None)
            } else if preference.ancestor_hash is None {
                Err(NodeError::ForkNoAncestor { preferred, canonical: head.hash })
            } else if new_len == 0 {
                Err(NodeError::ForkPathEmpty { ancestor_hash: ancestor, preferred })
            } else if new_len > score.block_number {
                Err(NodeError::ForkTooLong)
            } else if head.header.number - ancestor_number != old_len {
                Err(NodeError::ForkPathsDisagree { ancestor_hash: ancestor, ancestor_number })
            } else if !quorum::is_quorum(score.attested_weight as int, total_weight as int) {
                Ok(None)
            } else {
                match adoption_error(
                    view,
                    preference,
                    ancestor_number,
                    finalized_number,
                    finalized_hash,
                ) {
                    Some(e) => Err(e),
                    None => Ok(
                        Some(
                            ForkPlanView {
                                preferred_hash: preferred,
                                preferred_number: score.block_number,
                                canonical_number: head.header.number,
                                ancestor_hash: ancestor,
                                ancestor_number,
                                old_chain: blocks_of(view, preference.old_hashes@),
                                new_chain: blocks_of(view, preference.new_hashes@),
                                reverted_txs: unique_reverted(
                                    blocks_of(view, preference.old_hashes@),
                                    blocks_of(view, preference.new_hashes@),
                                ),
                            },
                        ),
                    ),
                }
            }
        },
    }
}

/// Plans the adoption of the fork that fork choice prefers.
///
/// There is nothing to adopt while the preferred block is the head or no higher than it, or while
/// validators with more than two thirds of the weight have not attested to it. A fork is never
/// adopted across the finalized block, and both paths must stand on a canonical ancestor without a
/// gap.
pub fn preferred_fork_plan(
    chain_store: &ChainStore,
    preference: &ForkPreference,
    weights: &Table<Address, u64>,
    finalized_number: u64,
    finalized_hash: ShellHash,
) -> (r: Result<Option<ForkAdoptionPlan>, NodeError>)
    ensures
        match fork_plan(
            chain_store@,
            *preference,
            quorum::capped(quorum::weight_sum(weights.rows())),
            finalized_number,
            finalized_hash,
        ) {
            Err(e) => r == Err::<Option<ForkAdoptionPlan>, NodeError>(e),
            Ok(None) => r == Ok::<Option<ForkAdoptionPlan>, NodeError>(None),
            Ok(Some(plan)) => r matches Ok(Some(p)) && p@ == plan,
        },
{
    let ghost view = chain_store@;
    let preferred = preference.preferred_hash;
    let (canonical_hash, canonical_number): (ShellHash, u64) = match chain_store.get_head_block() {
        Some(head) => (head.hash, head.header.number),
        None => {
            return Err(NodeError::NoGenesis);
        },
    };
    let score: ForkScore = match preference.score {
        Some(score) => score,
        None => {
            return Err(NodeError::ForkUnscored { preferred });
        },
    };
    if preferred == canonical_hash || score.block_number <= canonical_number {
        return Ok(None);
    }
    let ancestor_hash: ShellHash = match preference.ancestor_hash {
        Some(ancestor) => ancestor,
        None => {
            return Err(NodeError::ForkNoAncestor { preferred, canonical: canonical_hash });
        },
    };
    let new_len: u64 = preference.new_hashes.len() as u64;
    let old_len: u64 = preference.old_hashes.len() as u64;
    if new_len == 0 {
        return Err(NodeError::ForkPathEmpty { ancestor_hash, preferred });
    }
    if new_len > score.block_number {
        return Err(NodeError::ForkTooLong);
    }
    let ancestor_number: u64 = score.block_number - new_len;
    if canonical_number < ancestor_number || canonical_number - ancestor_number != old_len {
        return Err(NodeError::ForkPathsDisagree { ancestor_hash, ancestor_number });
    }
    let total: u64 = quorum::total_weight(weights);
    if !quorum::has_weighted_quorum(score.attested_weight, total) {
        return Ok(None);
    }
    if ancestor_number < finalized_number || (finalized_number > 0 && ancestor_number
        == finalized_number && ancestor_hash != finalized_hash) {
        return Err(
            NodeError::ForkCrossesFinalized {
                preferred,
                finalized: finalized_number,
                finalized_hash,
            },
        );
    }
    if chain_store.get_block_hash_by_number(ancestor_number) != Some(ancestor_hash) {
        return Err(NodeError::ForkAncestorNotCanonical { ancestor_hash, ancestor_number });
    }
    let old_chain = match load_fork_segment(
        chain_store,
        Segment::Rollback,
        ancestor_hash,
        ancestor_number,
        &preference.old_hashes,
        true,
    ) {
        Ok(blocks) => blocks,
        Err(e) => {
            return Err(e);
        },
    };
    let new_chain = match load_fork_segment(
        chain_store,
        Segment::Preferred,
        ancestor_hash,
        ancestor_number,
        &preference.new_hashes,
        false,
    ) {
        Ok(blocks) => blocks,
        Err(e) => {
            return Err(e);
        },
    };
    let reverted_txs = unique_reverted_transactions(&old_chain, &new_chain);
    Ok(
        Some(
            ForkAdoptionPlan {
                preferred_hash: preferred,
                preferred_number: score.block_number,
                canonical_number,
                ancestor_hash,
                ancestor_number,
                old_chain,
                new_chain,
                reverted_txs,
            },
        ),
    )
}

/// A block of the fork-choice tree.
#[derive(Clone, Copy, Debug, PartialEq, Eq)]
pub struct ForkChoiceBlock {
    /// The block.
    pub hash: ShellHash,
    /// The block before it.
    pub parent_hash: ShellHash,
    /// Its height.
    pub number: u64,
    /// Weight of the validators that attested to it.
    pub attested_weight: u64,
    /// Whether it was final when it came.
    pub finalized: bool,
}

/// The fork-choice tree: its root and the blocks above it. After a restart these are the canonical
/// blocks, lowest first, none of them attested or final yet.
#[derive(Debug)]
pub struct ForkChoiceSeed {
    /// The root of the tree.
    pub root_hash: ShellHash,
    /// Height of the root.
    pub root_number: u64,
    /// Whether the root is final.
    pub root_finalized: bool,
    /// Weight of the validators that attested to the root.
    pub root_weight: u64,
    /// The blocks above the root, in the order in which they came.
    pub blocks: Vec<ForkChoiceBlock>,
}

/// A fork-choice tree as a mathematical value.
#[verifier::ext_equal]
pub struct ForkChoiceView {
    pub root_hash: ShellHash,
    pub root_number: u64,
    pub root_finalized: bool,
    pub root_weight: u64,
    pub blocks: Seq<ForkChoiceBlock>,
}

impl View for ForkChoiceSeed {
    type V = ForkChoiceView;

    open spec fn view(&self) -> ForkChoiceView {
        ForkChoiceView {
            root_hash: self.root_hash,
            root_number: self.root_number,
            root_finalized: self.root_finalized,
            root_weight: self.root_weight,
            blocks: self.blocks@,
        }
    }
}

/// The test that a block outlives the finality of another one: it stands no lower, and it is another
/// one.
pub open spec fn outlives(hash: ShellHash, number: u64) -> spec_fn(ForkChoiceBlock) -> bool {
    |b: ForkChoiceBlock| b.number >= number && b.hash != hash
}

impl ForkChoiceView {
    /// The place of a block among those above the root.
    pub open spec fn position_from(self, hash: ShellHash, i: int) -> Option<int>
        decreases self.blocks.len() - i,
    {
        if i < 0 || i >= self.blocks.len() {
            None
        } else if self.blocks[i].hash == hash {
            Some(i)
        } else {
            self.position_from(hash, i + 1)
        }
    }

    /// Whether a block is in the tree.
    pub open spec fn contains(self, hash: ShellHash) -> bool {
        self.root_hash == hash || self.position_from(hash, 0) is Some
    }

    /// The block before one of the tree. The root has none, for which the zero hash stands.
    pub open spec fn parent(self, hash: ShellHash) -> Option<ShellHash> {
        if self.root_hash == hash {
            Some(crate::primitives::zero_hash())
        } else {
            match self.position_from(hash, 0) {
                Some(i) => Some(self.blocks[i].parent_hash),
                None => None,
            }
        }
    }

    /// The attested weight of a block, zero where it is not in the tree.
    pub open spec fn weight(self, hash: ShellHash) -> u64 {
        if self.root_hash == hash {
            self.root_weight
        } else {
            match self.position_from(hash, 0) {
                Some(i) => self.blocks[i].attested_weight,
                None => 0,
            }
        }
    }

    /// The tree with one block more. A block that is there already stays as it is.
    pub open spec fn with_block(self, block: ForkChoiceBlock) -> ForkChoiceView {
        if self.contains(block.hash) {
            self
        } else {
            ForkChoiceView { blocks: self.blocks.push(block), ..self }
        }
    }

    /// The tree after a block's attested weight has changed. A block that is not in the tree changes
    /// nothing.
    pub open spec fn attested(self, hash: ShellHash, weight: u64) -> ForkChoiceView {
        ForkChoiceView {
            root_weight: if self.root_hash == hash {
                weight
            } else {
                self.root_weight
            },
            blocks: Seq::new(
                self.blocks.len(),
                |i: int|
                    if self.blocks[i].hash == hash {
                        ForkChoiceBlock { attested_weight: weight, ..self.blocks[i] }
                    } else {
                        self.blocks[i]
                    },
            ),
            ..self
        }
    }

    /// The tree after a block has become final: it is rooted there, and lower blocks are gone.
    pub open spec fn finalized(self, hash: ShellHash, number: u64) -> ForkChoiceView {
        ForkChoiceView {
            root_hash: hash,
            root_number: number,
            root_finalized: true,
            root_weight: self.weight(hash),
            blocks: self.blocks.filter(outlives(hash, number)),
        }
    }
}

impl ForkChoiceSeed {
    fn position(&self, hash: &ShellHash) -> (r: Option<usize>)
        ensures
            match r {
                Some(i) => self@.position_from(*hash, 0) == Some(i as int) && i < self.blocks@.len(),
                None => self@.position_from(*hash, 0) is None,
            },
    {
        let mut i: usize = 0;
        while i < self.blocks.len()
            invariant
                i <= self.blocks@.len(),
                self@.position_from(*hash, 0) == self@.position_from(*hash, i as int),
            decreases self.blocks.len() - i,
        {
            if self.blocks[i].hash == *hash {
                return Some(i);
            }
            i += 1;
        }
        None
    }

    /// Whether a block is in the tree.
    pub fn contains(&self, hash: &ShellHash) -> (r: bool)
        ensures
            r == self@.contains(*hash),
    {
        self.root_hash == *hash || self.position(hash).is_some()
    }

    /// The number of blocks in the tree, its root among them.
    pub fn block_count(&self) -> (r: usize)
        requires
            self.blocks@.len() < usize::MAX,
        ensures
            r == self@.blocks.len() + 1,
    {
        self.blocks.len() + 1
    }

    /// The block before one of the tree. The root has none, for which the zero hash stands.
    pub fn parent(&self, hash: &ShellHash) -> (r: Option<ShellHash>)
        ensures
            r == self@.parent(*hash),
    {
        if self.root_hash == *hash {
            return Some(ShellHash::zero());
        }
        match self.position(hash) {
            Some(i) => Some(self.blocks[i].parent_hash),
            None => None,
        }
    }

    /// The attested weight of a block, zero where it is not in the tree.
    pub fn weight(&self, hash: &ShellHash) -> (r: u64)
        ensures
            r == self@.weight(*hash),
    {
        if self.root_hash == *hash {
            return self.root_weight;
        }
        match self.position(hash) {
            Some(i) => self.blocks[i].attested_weight,
            None => 0,
        }
    }

    /// Adds a block, unless it is there already. Returns whether it was added.
    pub fn add_block(&mut self, block: ForkChoiceBlock) -> (r: bool)
        ensures
            r == !old(self)@.contains(block.hash),
            final(self)@ == old(self)@.with_block(block),
    {
        if self.contains(&block.hash) {
            return false;
        }
        self.blocks.push(block);
        true
    }

    /// Takes over the attested weight of a block, if the block is in the tree.
    pub fn update_attested_weight(&mut self, hash: &ShellHash, weight: u64)
        ensures
            final(self)@ == old(self)@.attested(*hash, weight),
    {
        let ghost before = self@;
        if self.root_hash == *hash {
            self.root_weight = weight;
        }
        let ghost after = before.attested(*hash, weight);
        let count: usize = self.blocks.len();
        let mut i: usize = 0;
        while i < count
            invariant
                i <= count,
                count == before.blocks.len(),
                self.blocks@.len() == count,
                after == before.attested(*hash, weight),
                self.root_hash == before.root_hash,
                self.root_number == before.root_number,
                self.root_finalized == before.root_finalized,
                self.root_weight == after.root_weight,
                forall|j: int| 0 <= j < i ==> (#[trigger] self.blocks@[j]) == after.blocks[j],
                forall|j: int| i <= j < count ==> (#[trigger] self.blocks@[j]) == before.blocks[j],
            decreases count - i,
        {
            let block = self.blocks[i];
            if block.hash == *hash {
                self.blocks.set(i, ForkChoiceBlock {
                    hash: block.hash,
                    parent_hash: block.parent_hash,
                    number: block.number,
                    attested_weight: weight,
                    finalized: block.finalized,
                });
            }
            i += 1;
        }
        assert(self@ =~= after);
    }

    /// Roots the tree at a block that has become final, and drops the blocks below it, so that the
    /// tree does not grow without bound.
    pub fn finalize(&mut self, hash: ShellHash, number: u64)
        ensures
            final(self)@ == old(self)@.finalized(hash, number),
    {
        let ghost before = self@;
        let ghost keep = outlives(hash, number);
        let root_weight: u64 = self.weight(&hash);
        let mut blocks: Vec<ForkChoiceBlock> = Vec::new();
        let mut n: usize = 0;
        proof {
            reveal(Seq::filter);
            assert(before.blocks.take(0) =~= Seq::empty());
        }
        while n < self.blocks.len()
            invariant
                n <= self.blocks@.len(),
                self.blocks@ == before.blocks,
                keep == outlives(hash, number),
                blocks@ == before.blocks.take(n as int).filter(keep),
            decreases self.blocks.len() - n,
        {
            let block = self.blocks[n];
            proof {
                reveal(Seq::filter);
                assert(before.blocks.take(n + 1).drop_last() =~= before.blocks.take(n as int));
            }
            if block.number >= number && block.hash != hash {
                blocks.push(block);
            }
            n += 1;
        }
        assert(before.blocks.take(n as int) =~= before.blocks);
        self.root_hash = hash;
        self.root_number = number;
        self.root_finalized = true;
        self.root_weight = root_weight;
        self.blocks = blocks;
    }
}

/// The canonical hashes from a height up to another one, as far as there is no gap.
pub open spec fn canonical_run(view: ChainView, first: int, last: int) -> Seq<ShellHash>
    decreases last + 1 - first,
{
    if first > last || first > u64::MAX || !view.canonical.contains_key(first as u64) {
        Seq::empty()
    } else {
        seq![view.canonical[first as u64]] + canonical_run(view, first + 1, last)
    }
}

/// The root of the fork-choice tree after a restart: the finalized block, or the genesis block where
/// none is known to be final.
pub open spec fn restored_root(view: ChainView, finalized_number: u64, finalized_hash: ShellHash) -> (
    u64,
    ShellHash,
) {
    if finalized_number > 0 && finalized_hash != crate::primitives::zero_hash() {
        (finalized_number, finalized_hash)
    } else if view.canonical.contains_key(0) {
        (0, view.canonical[0])
    } else {
        (0, crate::primitives::zero_hash())
    }
}

/// The fork-choice blocks of a run of hashes above a root.
pub open spec fn seed_blocks(root_number: u64, root: ShellHash, run: Seq<ShellHash>) -> Seq<
    ForkChoiceBlock,
> {
    Seq::new(
        run.len(),
        |i: int|
            ForkChoiceBlock {
                hash: run[i],
                parent_hash: crate::reorg::expected_parent(root, run, i),
                number: (root_number + 1 + i) as u64,
                attested_weight: 0,
                finalized: false,
            },
    )
}

/// Rebuilds the fork-choice tree from the canonical chain: rooted at the finalized block, with the
/// canonical blocks above it up to the head or to the first gap.
pub fn restore_fork_choice(
    chain_store: &ChainStore,
    finalized_number: u64,
    finalized_hash: ShellHash,
    head_number: u64,
) -> (r: ForkChoiceSeed)
    ensures
        (r.root_number, r.root_hash) == restored_root(
            chain_store@,
            finalized_number,
            finalized_hash,
        ),
        r.root_finalized == (r.root_number > 0),
        r.root_weight == 0,
        r.blocks@ == seed_blocks(
            r.root_number,
            r.root_hash,
            canonical_run(chain_store@, r.root_number + 1, head_number as int),
        ),
{
    let ghost view = chain_store@;
    let zero = ShellHash::zero();
    let (root_number, root_hash): (u64, ShellHash) = if finalized_number > 0 && finalized_hash
        != zero {
        (finalized_number, finalized_hash)
    } else {
        match chain_store.get_block_hash_by_number(0) {
            Some(hash) => (0, hash),
            None => (0, zero),
        }
    };
    let mut blocks: Vec<ForkChoiceBlock> = Vec::new();
    let mut parent_hash = root_hash;
    let mut previous: u64 = root_number;
    let ghost run = canonical_run(view, root_number + 1, head_number as int);
    let ghost mut done: Seq<ShellHash> = Seq::empty();
    proof {
        assert(done + run =~= run);
        assert(blocks@ =~= seed_blocks(root_number, root_hash, done));
    }
    while previous < head_number
        invariant_except_break
            run == done + canonical_run(view, previous + 1, head_number as int),
        invariant
            root_number <= previous,
            view == chain_store@,
            previous == root_number + done.len(),
            parent_hash == crate::reorg::expected_parent(root_hash, done, done.len() as int),
            blocks@ == seed_blocks(root_number, root_hash, done),
            previous <= head_number || done.len() == 0,
        ensures
            blocks@ == seed_blocks(root_number, root_hash, run),
        decreases head_number - previous,
    {
        let number: u64 = previous + 1;
        match chain_store.get_block_hash_by_number(number) {
            Some(hash) => {
                blocks.push(
                    ForkChoiceBlock {
                        hash,
                        parent_hash,
                        number,
                        attested_weight: 0,
                        finalized: false,
                    },
                );
                proof {
                    let longer = done.push(hash);
                    assert(done + (seq![hash] + canonical_run(view, number + 1, head_number as int))
                        =~= longer + canonical_run(view, number + 1, head_number as int));
                    assert(blocks@ =~= seed_blocks(root_number, root_hash, longer));
                    done = longer;
                }
                parent_hash = hash;
                previous = number;
            },
            None => {
                proof {
                    assert(canonical_run(view, previous + 1, head_number as int) =~= Seq::empty());
                    assert(done + Seq::<ShellHash>::empty() =~= done);
                }
                break ;
            },
        }
    }
    ForkChoiceSeed {
        root_hash,
        root_number,
        root_finalized: root_number > 0,
        root_weight: 0,
        blocks,
    }
}

/// Once a block is final, fork choice is rooted there: the block has no parent, it keeps its weight,
/// and nothing lower is left in the tree.
pub proof fn law_final_block_roots_fork_choice(tree: ForkChoiceView, hash: ShellHash, number: u64)
    ensures
        ({
            let after = tree.finalized(hash, number);
            &&& after.contains(hash)
            &&& after.parent(hash) == Some(crate::primitives::zero_hash())
            &&& after.weight(hash) == tree.weight(hash)
            &&& after.blocks.len() <= tree.blocks.len()
            &&& forall|i: int|
                0 <= i < after.blocks.len() ==> (#[trigger] after.blocks[i]).number >= number
                    && after.blocks[i].hash != hash && tree.blocks.contains(after.blocks[i])
        }),
{
    lemma_filter_members(tree.blocks, outlives(hash, number));
}

proof fn lemma_filter_members(blocks: Seq<ForkChoiceBlock>, keep: spec_fn(ForkChoiceBlock) -> bool)
    ensures
        blocks.filter(keep).len() <= blocks.len(),
        forall|i: int|
            0 <= i < blocks.filter(keep).len() ==> keep(#[trigger] blocks.filter(keep)[i])
                && blocks.contains(blocks.filter(keep)[i]),
    decreases blocks.len(),
{
    reveal(Seq::filter);
    if blocks.len() > 0 {
        let shorter = blocks.drop_last();
        lemma_filter_members(shorter, keep);
        assert forall|i: int| 0 <= i < blocks.filter(keep).len() implies keep(
            #[trigger] blocks.filter(keep)[i],
        ) && blocks.contains(blocks.filter(keep)[i]) by {
            if i < shorter.filter(keep).len() {
                assert(blocks.filter(keep)[i] == shorter.filter(keep)[i]);
                let j = choose|j: int| 0 <= j < shorter.len() && shorter[j] == shorter.filter(keep)[i];
                assert(blocks[j] == shorter[j]);
            } else {
                assert(blocks[blocks.len() - 1] == blocks.filter(keep)[i]);
            }
        }
    }
}

/// Counting an attestation changes the weight of its block in fork choice, and of no other.
pub proof fn law_attestation_changes_one_weight(
    tree: ForkChoiceView,
    hash: ShellHash,
    weight: u64,
    other: ShellHash,
)
    ensures
        ({
            let after = tree.attested(hash, weight);
            &&& after.contains(other) == tree.contains(other)
            &&& after.parent(other) == tree.parent(other)
            &&& tree.contains(hash) ==> after.weight(hash) == weight
            &&& other != hash ==> after.weight(other) == tree.weight(other)
        }),
{
    lemma_attested_position(tree, hash, weight, other, 0);
    lemma_attested_position(tree, hash, weight, hash, 0);
}

proof fn lemma_attested_position(
    tree: ForkChoiceView,
    hash: ShellHash,
    weight: u64,
    other: ShellHash,
    i: int,
)
    requires
        0 <= i <= tree.blocks.len(),
    ensures
        tree.attested(hash, weight).position_from(other, i) == tree.position_from(other, i),
        tree.position_from(other, i) matches Some(k) ==> 0 <= k < tree.blocks.len()
            && tree.blocks[k].hash == other,
    decreases tree.blocks.len() - i,
{
    if i < tree.blocks.len() {
        lemma_attested_position(tree, hash, weight, other, i + 1);
    }
}

/// The transactions that adopting a fork hands back occur once each, come from the rolled-back
/// blocks, and are not in the fork.
pub proof fn law_reverted_are_unique(txs: Seq<SignedTransaction>, adopted: Set<ShellHash>, n: nat)
    requires
        n <= txs.len(),
    ensures
        ({
            let kept = unique_unadopted(txs, adopted, n);
            &&& forall|i: int|
                0 <= i < kept.len() ==> !adopted.contains((#[trigger] kept[i]).hash)
                    && txs.take(n as int).contains(kept[i])
            &&& forall|i: int, j: int|
                0 <= i < j < kept.len() ==> (#[trigger] kept[i]).hash != (#[trigger] kept[j]).hash
            &&& forall|h: ShellHash| #[trigger]
                crate::chain::hashes_of(kept).contains(h) <==> crate::chain::hashes_of(
                    txs.take(n as int),
                ).contains(h) && !adopted.contains(h)
        }),
    decreases n,
{
    if n > 0 {
        law_reverted_are_unique(txs, adopted, (n - 1) as nat);
        let before = unique_unadopted(txs, adopted, (n - 1) as nat);
        let kept = unique_unadopted(txs, adopted, n);
        let shorter = txs.take(n - 1);
        let longer = txs.take(n as int);
        let tx = txs[n - 1];
        assert(longer[n - 1] == tx);
        assert forall|i: int| 0 <= i < shorter.len() implies longer[i] == shorter[i] by {}
        assert forall|h: ShellHash| #[trigger] crate::chain::hashes_of(longer).contains(h)
            <==> crate::chain::hashes_of(shorter).contains(h) || h == tx.hash by {
            if crate::chain::hashes_of(shorter).contains(h) {
                let j = choose|j: int| 0 <= j < shorter.len() && (#[trigger] shorter[j]).hash == h;
                assert(longer[j].hash == h);
            }
            if crate::chain::hashes_of(longer).contains(h) {
                let j = choose|j: int| 0 <= j < longer.len() && (#[trigger] longer[j]).hash == h;
                if j < n - 1 {
                    assert(shorter[j].hash == h);
                }
            }
        }
        assert forall|i: int| 0 <= i < kept.len() implies !adopted.contains((#[trigger] kept[i]).hash)
            && longer.contains(kept[i]) by {
            if i < before.len() {
                assert(kept[i] == before[i]);
                let j = choose|j: int| 0 <= j < shorter.len() && shorter[j] == before[i];
                assert(longer[j] == kept[i]);
            } else {
                assert(longer[n - 1] == kept[i]);
            }
        }
        assert forall|i: int, j: int| 0 <= i < j < kept.len() implies (#[trigger] kept[i]).hash
            != (#[trigger] kept[j]).hash by {
            if j < before.len() {
                assert(kept[i] == before[i] && kept[j] == before[j]);
            } else {
                assert(kept[i] == before[i]);
                assert(crate::chain::hashes_of(before).contains(before[i].hash));
                assert(crate::chain::hashes_of(shorter).contains(before[i].hash));
            }
        }
        assert forall|h: ShellHash| #[trigger] crate::chain::hashes_of(kept).contains(h)
            <==> crate::chain::hashes_of(longer).contains(h) && !adopted.contains(h) by {
            assert(crate::chain::hashes_of(before).contains(h) <==> crate::chain::hashes_of(
                shorter,
            ).contains(h) && !adopted.contains(h));
            if crate::chain::hashes_of(before).contains(h) {
                let j = choose|j: int| 0 <= j < before.len() && (#[trigger] before[j]).hash == h;
                assert(kept[j].hash == h);
            }
            if kept.len() > before.len() {
                assert(kept[before.len() as int] == tx);
            }
            if crate::chain::hashes_of(kept).contains(h) {
                let j = choose|j: int| 0 <= j < kept.len() && (#[trigger] kept[j]).hash == h;
                if j < before.len() {
                    assert(before[j].hash == h);
                }
            }
        }
    }
}

/// A fork is adopted only if it stands higher than the head, validators with more than two thirds of
/// the weight attested to its tip, and it does not cross the finalized block.
pub proof fn law_adopted_fork_has_quorum(
    view: ChainView,
    preference: ForkPreference,
    total_weight: u64,
    finalized_number: u64,
    finalized_hash: ShellHash,
)
    requires
        fork_plan(view, preference, total_weight, finalized_number, finalized_hash) matches Ok(
            Some(_),
        ),
    ensures
        ({
            let plan = fork_plan(view, preference, total_weight, finalized_number, finalized_hash)->Ok_0->0;
            &&& plan.preferred_number > plan.canonical_number
            &&& quorum::is_quorum(
                preference.score->0.attested_weight as int,
                total_weight as int,
            )
            &&& plan.ancestor_number >= finalized_number
            &&& 0 < finalized_number == plan.ancestor_number ==> plan.ancestor_hash
                == finalized_hash
            &&& plan.ancestor_number + plan.new_chain.len() == plan.preferred_number
            &&& plan.ancestor_number + plan.old_chain.len() == plan.canonical_number
        }),
{
}

proof fn lemma_loaded_is_segment(
    view: ChainView,
    segment: Segment,
    other: Segment,
    ancestor: ShellHash,
    ancestor_number: u64,
    hashes: Seq<ShellHash>,
    require_canonical: bool,
    n: nat,
)
    requires
        n <= hashes.len(),
        load_error(view, segment, ancestor, ancestor_number, hashes, require_canonical, n) is None,
    ensures
        crate::reorg::segment_error(view, ancestor, ancestor_number, hashes, other, n) is None,
    decreases n,
{
    if n > 0 {
        lemma_loaded_is_segment(
            view,
            segment,
            other,
            ancestor,
            ancestor_number,
            hashes,
            require_canonical,
            (n - 1) as nat,
        );
        assert(place_error(
            view,
            segment,
            ancestor,
            ancestor_number,
            hashes,
            require_canonical,
            n - 1,
        ) is None);
    }
}

/// A planned adoption can be carried out: the reorganization from the canonical head to the fork is
/// refused for nothing but an ancestor whose body is gone or a world state that is not available.
pub proof fn law_plan_can_be_executed(
    view: ChainView,
    preference: ForkPreference,
    total_weight: u64,
    finalized_number: u64,
    finalized_hash: ShellHash,
)
    requires
        fork_plan(view, preference, total_weight, finalized_number, finalized_hash) matches Ok(
            Some(_),
        ),
    ensures
        ({
            let plan = fork_plan(view, preference, total_weight, finalized_number, finalized_hash)->Ok_0->0;
            match crate::reorg::reorg_error(
                view,
                plan.ancestor_hash,
                plan.ancestor_number,
                preference.old_hashes@,
                preference.new_hashes@,
                finalized_number,
            ) {
                None => true,
                Some(NodeError::AncestorMissing { hash }) => true,
                Some(NodeError::StateUnavailable { root }) => true,
                Some(_) => false,
            }
        }),
{
    let plan = fork_plan(view, preference, total_weight, finalized_number, finalized_hash)->Ok_0->0;
    let ancestor = plan.ancestor_hash;
    let number = plan.ancestor_number;
    let old_hashes = preference.old_hashes@;
    let new_hashes = preference.new_hashes@;
    assert(adoption_error(view, preference, number, finalized_number, finalized_hash) is None);
    lemma_loaded_is_segment(
        view,
        Segment::Rollback,
        Segment::Old,
        ancestor,
        number,
        old_hashes,
        true,
        old_hashes.len(),
    );
    lemma_loaded_is_segment(
        view,
        Segment::Preferred,
        Segment::New,
        ancestor,
        number,
        new_hashes,
        false,
        new_hashes.len(),
    );
}

/// The place, among the transactions of some blocks in order, at which those of a block begin.
pub open spec fn place_of_block(blocks: Seq<BlockView>, b: int) -> int {
    all_transactions(blocks.take(b)).len() as int
}

proof fn lemma_places(blocks: Seq<BlockView>, b: int, i: int)
    requires
        0 <= b < blocks.len(),
        0 <= i < blocks[b].transactions.len(),
    ensures
        0 <= place_of_block(blocks, b) + i < all_transactions(blocks).len(),
        all_transactions(blocks)[place_of_block(blocks, b) + i] == blocks[b].transactions[i],
    decreases blocks.len(),
{
    let init = blocks.drop_last();
    if b == blocks.len() - 1 {
        assert(blocks.take(b) =~= init);
    } else {
        assert(init[b] == blocks[b]);
        lemma_places(init, b, i);
        assert(init.take(b) =~= blocks.take(b));
    }
}

proof fn lemma_block_of_place(blocks: Seq<BlockView>, k: int) -> (r: (int, int))
    requires
        0 <= k < all_transactions(blocks).len(),
    ensures
        0 <= r.0 < blocks.len(),
        0 <= r.1 < blocks[r.0].transactions.len(),
        k == place_of_block(blocks, r.0) + r.1,
        all_transactions(blocks)[k] == blocks[r.0].transactions[r.1],
    decreases blocks.len(),
{
    let init = blocks.drop_last();
    let before = all_transactions(init);
    if k < before.len() {
        let r = lemma_block_of_place(init, k);
        assert(init.take(r.0) =~= blocks.take(r.0));
        assert(init[r.0] == blocks[r.0]);
        r
    } else {
        let b = blocks.len() - 1;
        assert(blocks.take(b) =~= init);
        (b, k - before.len())
    }
}

proof fn lemma_places_in_order(blocks: Seq<BlockView>, b: int, c: int)
    requires
        0 <= b < c < blocks.len(),
    ensures
        place_of_block(blocks, b) + blocks[b].transactions.len() <= place_of_block(blocks, c),
    decreases c - b,
{
    let upto = blocks.take(c);
    assert(upto.drop_last() =~= blocks.take(c - 1));
    assert(upto.last() == blocks[c - 1]);
    if b < c - 1 {
        lemma_places_in_order(blocks, b, c - 1);
    }
}

/// Whether some block holds a transaction of a hash.
pub open spec fn chain_holds(blocks: Seq<BlockView>, hash: ShellHash) -> bool {
    exists|c: int, j: int|
        0 <= c < blocks.len() && 0 <= j < blocks[c].transactions.len() && (
        #[trigger] blocks[c].transactions[j]).hash == hash
}

proof fn lemma_chain_holds(blocks: Seq<BlockView>, hash: ShellHash)
    ensures
        crate::chain::hashes_of(all_transactions(blocks)).contains(hash) <==> chain_holds(
            blocks,
            hash,
        ),
{
    let txs = all_transactions(blocks);
    if crate::chain::hashes_of(txs).contains(hash) {
        let k = choose|k: int| 0 <= k < txs.len() && (#[trigger] txs[k]).hash == hash;
        let r = lemma_block_of_place(blocks, k);
        assert(blocks[r.0].transactions[r.1].hash == hash);
    }
    if chain_holds(blocks, hash) {
        let (c, j) = choose|c: int, j: int|
            0 <= c < blocks.len() && 0 <= j < blocks[c].transactions.len() && (
            #[trigger] blocks[c].transactions[j]).hash == hash;
        lemma_places(blocks, c, j);
        assert(txs[place_of_block(blocks, c) + j].hash == hash);
    }
}

/// No transaction is lost when a fork is adopted: every transaction of every rolled-back block goes
/// back to the pool exactly if no block of the fork holds one of its hash.
pub proof fn law_every_rolled_back_transaction_is_handed_back(
    old_chain: Seq<BlockView>,
    new_chain: Seq<BlockView>,
    b: int,
    i: int,
)
    requires
        0 <= b < old_chain.len(),
        0 <= i < old_chain[b].transactions.len(),
    ensures
        (exists|k: int|
            0 <= k < unique_reverted(old_chain, new_chain).len() && (#[trigger] unique_reverted(
                old_chain,
                new_chain,
            )[k]).hash == old_chain[b].transactions[i].hash) <==> !(exists|c: int, j: int|
            0 <= c < new_chain.len() && 0 <= j < new_chain[c].transactions.len() && (
            #[trigger] new_chain[c].transactions[j]).hash == old_chain[b].transactions[i].hash),
{
    let txs = all_transactions(old_chain);
    let adopted = crate::chain::hashes_of(all_transactions(new_chain));
    let hash = old_chain[b].transactions[i].hash;
    let kept = unique_reverted(old_chain, new_chain);
    law_reverted_are_unique(txs, adopted, txs.len());
    assert(txs.take(txs.len() as int) =~= txs);
    lemma_chain_holds(new_chain, hash);
    lemma_chain_holds(old_chain, hash);
    assert(old_chain[b].transactions[i].hash == hash);
    assert(crate::chain::hashes_of(kept).contains(hash) <==> !adopted.contains(hash));
    assert(crate::chain::hashes_of(kept).contains(hash) <==> exists|k: int|
        0 <= k < kept.len() && (#[trigger] kept[k]).hash == hash);
}

/// Where the first occurrence of a transaction is in a chain: at place `i` of block `b`, and nowhere
/// before.
pub open spec fn first_occurs_at(blocks: Seq<BlockView>, tx: SignedTransaction, b: int, i: int) -> bool {
    &&& 0 <= b < blocks.len()
    &&& 0 <= i < blocks[b].transactions.len()
    &&& blocks[b].transactions[i] == tx
    &&& forall|c: int, j: int|
        0 <= c < blocks.len() && 0 <= j < blocks[c].transactions.len() && (c < b || (c == b && j
            < i)) ==> (#[trigger] blocks[c].transactions[j]).hash != tx.hash
}

proof fn lemma_kept_places(txs: Seq<SignedTransaction>, adopted: Set<ShellHash>, n: nat) -> (places:
    Seq<int>)
    requires
        n <= txs.len(),
    ensures
        places.len() == unique_unadopted(txs, adopted, n).len(),
        forall|k: int|
            0 <= k < places.len() ==> 0 <= (#[trigger] places[k]) < n && unique_unadopted(
                txs,
                adopted,
                n,
            )[k] == txs[places[k]] && forall|m: int|
                0 <= m < places[k] ==> (#[trigger] txs[m]).hash != txs[places[k]].hash,
        forall|k: int, l: int|
            0 <= k < l < places.len() ==> (#[trigger] places[k]) < (#[trigger] places[l]),
    decreases n,
{
    if n == 0 {
        Seq::empty()
    } else {
        let before = lemma_kept_places(txs, adopted, (n - 1) as nat);
        let tx = txs[n - 1];
        let fewer = txs.take(n - 1);
        if adopted.contains(tx.hash) || crate::chain::hashes_of(fewer).contains(tx.hash) {
            before
        } else {
            assert forall|m: int| 0 <= m < n - 1 implies (#[trigger] txs[m]).hash != tx.hash by {
                assert(fewer[m] == txs[m]);
            }
            before.push(n - 1)
        }
    }
}

/// What goes back to the pool comes from the rolled-back blocks, in their order: each transaction is
/// the first of its hash there, later ones come from later places, and so no hash occurs twice.
pub proof fn law_handed_back_in_order(
    old_chain: Seq<BlockView>,
    new_chain: Seq<BlockView>,
    k: int,
    l: int,
)
    requires
        0 <= k < l < unique_reverted(old_chain, new_chain).len(),
    ensures
        ({
            let kept = unique_reverted(old_chain, new_chain);
            &&& kept[k].hash != kept[l].hash
            &&& exists|b: int, i: int, c: int, j: int|
                #![trigger old_chain[b].transactions[i], old_chain[c].transactions[j]]
                first_occurs_at(old_chain, kept[k], b, i) && first_occurs_at(
                    old_chain,
                    kept[l],
                    c,
                    j,
                ) && (b < c || (b == c && i < j))
        }),
{
    let txs = all_transactions(old_chain);
    let adopted = crate::chain::hashes_of(all_transactions(new_chain));
    let kept = unique_reverted(old_chain, new_chain);
    let places = lemma_kept_places(txs, adopted, txs.len());
    let at_k = lemma_block_of_place(old_chain, places[k]);
    let at_l = lemma_block_of_place(old_chain, places[l]);
    lemma_first_occurs(old_chain, places[k], at_k.0, at_k.1);
    lemma_first_occurs(old_chain, places[l], at_l.0, at_l.1);
    assert(places[k] < places[l]);
    if at_l.0 < at_k.0 {
        lemma_places_in_order(old_chain, at_l.0, at_k.0);
    }
    assert(txs[places[k]].hash != txs[places[l]].hash);
    assert(old_chain[at_k.0].transactions[at_k.1] == kept[k]);
    assert(old_chain[at_l.0].transactions[at_l.1] == kept[l]);
}

proof fn lemma_first_occurs(blocks: Seq<BlockView>, place: int, b: int, i: int)
    requires
        0 <= b < blocks.len(),
        0 <= i < blocks[b].transactions.len(),
        place == place_of_block(blocks, b) + i,
        forall|m: int|
            0 <= m < place ==> (#[trigger] all_transactions(blocks)[m]).hash != all_transactions(
                blocks,
            )[place].hash,
    ensures
        first_occurs_at(blocks, all_transactions(blocks)[place], b, i),
{
    let txs = all_transactions(blocks);
    lemma_places(blocks, b, i);
    assert forall|c: int, j: int|
        0 <= c < blocks.len() && 0 <= j < blocks[c].transactions.len() && (c < b || (c == b && j
            < i)) implies (#[trigger] blocks[c].transactions[j]).hash != txs[place].hash by {
        lemma_places(blocks, c, j);
        if c < b {
            lemma_places_in_order(blocks, c, b);
        }
        assert(txs[place_of_block(blocks, c) + j] == blocks[c].transactions[j]);
    }
}

proof fn lemma_load_error(
    view: ChainView,
    segment: Segment,
    ancestor: ShellHash,
    ancestor_number: u64,
    hashes: Seq<ShellHash>,
    require_canonical: bool,
    n: nat,
)
    ensures
        load_error(view, segment, ancestor, ancestor_number, hashes, require_canonical, n) is None
            <==> forall|i: int|
            0 <= i < n ==> #[trigger] place_error(
                view,
                segment,
                ancestor,
                ancestor_number,
                hashes,
                require_canonical,
                i,
            ) is None,
    decreases n,
{
    if n > 0 {
        lemma_load_error(
            view,
            segment,
            ancestor,
            ancestor_number,
            hashes,
            require_canonical,
            (n - 1) as nat,
        );
        let last = place_error(
            view,
            segment,
            ancestor,
            ancestor_number,
            hashes,
            require_canonical,
            n - 1,
        );
        assert(load_error(
            view,
            segment,
            ancestor,
            ancestor_number,
            hashes,
            require_canonical,
            n,
        ) is None ==> last is None);
    }
}

/// Whether the block at position `i` of a segment is where it belongs: it is known under its own
/// hash, at the height that follows from its place, on the block before it or on the ancestor, and,
/// where that is asked for, it is the canonical block of its height.
pub open spec fn is_placed(
    view: ChainView,
    ancestor: ShellHash,
    ancestor_number: u64,
    hashes: Seq<ShellHash>,
    require_canonical: bool,
    i: int,
) -> bool {
    let block = view.blocks[hashes[i]];
    &&& view.blocks.contains_key(hashes[i])
    &&& block.hash == hashes[i]
    &&& block.header.number == ancestor_number + 1 + i
    &&& i == 0 ==> block.header.parent_hash == ancestor
    &&& i > 0 ==> block.header.parent_hash == hashes[i - 1]
    &&& require_canonical ==> view.canonical.contains_key(block.header.number)
        && view.canonical[block.header.number] == hashes[i]
}

/// A segment is loaded exactly if each of its blocks is where it belongs.
pub proof fn law_segments_that_are_loaded(
    view: ChainView,
    segment: Segment,
    ancestor: ShellHash,
    ancestor_number: u64,
    hashes: Seq<ShellHash>,
    require_canonical: bool,
)
    ensures
        load_error(
            view,
            segment,
            ancestor,
            ancestor_number,
            hashes,
            require_canonical,
            hashes.len(),
        ) is None <==> forall|i: int|
            0 <= i < hashes.len() ==> #[trigger] is_placed(
                view,
                ancestor,
                ancestor_number,
                hashes,
                require_canonical,
                i,
            ),
{
    lemma_load_error(
        view,
        segment,
        ancestor,
        ancestor_number,
        hashes,
        require_canonical,
        hashes.len(),
    );
    assert forall|i: int| 0 <= i < hashes.len() implies (#[trigger] place_error(
        view,
        segment,
        ancestor,
        ancestor_number,
        hashes,
        require_canonical,
        i,
    ) is None <==> is_placed(view, ancestor, ancestor_number, hashes, require_canonical, i)) by {
        let number = view.blocks[hashes[i]].header.number;
        assert(number <= u64::MAX);
    }
    if forall|i: int|
        0 <= i < hashes.len() ==> #[trigger] is_placed(
            view,
            ancestor,
            ancestor_number,
            hashes,
            require_canonical,
            i,
        ) {
        assert forall|i: int| 0 <= i < hashes.len() implies #[trigger] place_error(
            view,
            segment,
            ancestor,
            ancestor_number,
            hashes,
            require_canonical,
            i,
        ) is None by {
            assert(is_placed(view, ancestor, ancestor_number, hashes, require_canonical, i));
        }
    }
    if load_error(
        view,
        segment,
        ancestor,
        ancestor_number,
        hashes,
        require_canonical,
        hashes.len(),
    ) is None {
        assert forall|i: int| 0 <= i < hashes.len() implies #[trigger] is_placed(
            view,
            ancestor,
            ancestor_number,
            hashes,
            require_canonical,
            i,
        ) by {
            assert(place_error(
                view,
                segment,
                ancestor,
                ancestor_number,
                hashes,
                require_canonical,
                i,
            ) is None);
        }
    }
}

/// The first block of a segment that is not where it belongs is the one that is named, with what is
/// wrong with it: it is not known, it does not continue the chain, or it is not canonical.
pub proof fn law_first_misplaced_block_is_named(
    view: ChainView,
    segment: Segment,
    ancestor: ShellHash,
    ancestor_number: u64,
    hashes: Seq<ShellHash>,
    require_canonical: bool,
    i: int,
)
    requires
        0 <= i < hashes.len(),
        ancestor_number + hashes.len() <= u64::MAX,
        !is_placed(view, ancestor, ancestor_number, hashes, require_canonical, i),
        forall|j: int|
            0 <= j < i ==> #[trigger] is_placed(
                view,
                ancestor,
                ancestor_number,
                hashes,
                require_canonical,
                j,
            ),
    ensures
        ({
            let error = load_error(
                view,
                segment,
                ancestor,
                ancestor_number,
                hashes,
                require_canonical,
                hashes.len(),
            );
            let block = view.blocks[hashes[i]];
            let number = (ancestor_number + 1 + i) as u64;
            let parent = if i == 0 {
                ancestor
            } else {
                hashes[i - 1]
            };
            let continues = block.hash == hashes[i] && block.header.number == number
                && block.header.parent_hash == parent;
            &&& !view.blocks.contains_key(hashes[i]) ==> error == Some(
                NodeError::SegmentBlockMissing { segment, hash: hashes[i] },
            )
            &&& view.blocks.contains_key(hashes[i]) && !continues ==> error == Some(
                NodeError::SegmentContinuityBroken {
                    segment,
                    hash: hashes[i],
                    expected_number: number,
                    expected_parent: parent,
                    got_hash: block.hash,
                    got_number: block.header.number,
                    got_parent: block.header.parent_hash,
                },
            )
            &&& view.blocks.contains_key(hashes[i]) && continues ==> error == Some(
                NodeError::SegmentNotCanonical { segment, hash: hashes[i], number },
            )
        }),
{
    lemma_load_error(
        view,
        segment,
        ancestor,
        ancestor_number,
        hashes,
        require_canonical,
        i as nat,
    );
    assert forall|j: int| 0 <= j < i implies #[trigger] place_error(
        view,
        segment,
        ancestor,
        ancestor_number,
        hashes,
        require_canonical,
        j,
    ) is None by {
        assert(is_placed(view, ancestor, ancestor_number, hashes, require_canonical, j));
    }
    assert(load_error(
        view,
        segment,
        ancestor,
        ancestor_number,
        hashes,
        require_canonical,
        (i + 1) as nat,
    ) == place_error(
        view,
        segment,
        ancestor,
        ancestor_number,
        hashes,
        require_canonical,
        i,
    ));
    lemma_first_load_fault(
        view,
        segment,
        ancestor,
        ancestor_number,
        hashes,
        require_canonical,
        (i + 1) as nat,
        hashes.len(),
    );
}

/// Whether a preferred fork is to be adopted: its tip is another block than the head and higher than
/// it, more than two thirds of the weight attested to it, both paths have the lengths that lead from
/// the ancestor to the tips, the ancestor is canonical and not below the finalized block nor another
/// one at its height, and every block of both paths is where it belongs.
pub open spec fn is_to_be_adopted(
    view: ChainView,
    preference: ForkPreference,
    total_weight: u64,
    finalized_number: u64,
    finalized_hash: ShellHash,
    ancestor_number: u64,
) -> bool {
    let head = view.blocks[view.head->0];
    let score = preference.score->0;
    let ancestor = preference.ancestor_hash->0;
    let old_hashes = preference.old_hashes@;
    let new_hashes = preference.new_hashes@;
    &&& view.head is Some
    &&& view.blocks.contains_key(view.head->0)
    &&& preference.score is Some
    &&& preference.ancestor_hash is Some
    &&& preference.preferred_hash != head.hash
    &&& score.block_number > head.header.number
    &&& new_hashes.len() > 0
    &&& ancestor_number + new_hashes.len() == score.block_number
    &&& ancestor_number + old_hashes.len() == head.header.number
    &&& total_weight > 0
    &&& 3 * score.attested_weight > 2 * total_weight
    &&& ancestor_number >= finalized_number
    &&& finalized_number > 0 && ancestor_number == finalized_number ==> ancestor == finalized_hash
    &&& view.canonical.contains_key(ancestor_number)
    &&& view.canonical[ancestor_number] == ancestor
    &&& forall|i: int|
        0 <= i < old_hashes.len() ==> #[trigger] is_placed(
            view,
            ancestor,
            ancestor_number,
            old_hashes,
            true,
            i,
        )
    &&& forall|i: int|
        0 <= i < new_hashes.len() ==> #[trigger] is_placed(
            view,
            ancestor,
            ancestor_number,
            new_hashes,
            false,
            i,
        )
}

/// A fork is adopted exactly if it is to be, and the plan then holds the blocks of both paths, in
/// order, and what goes back to the pool.
pub proof fn law_forks_that_are_adopted(
    view: ChainView,
    preference: ForkPreference,
    total_weight: u64,
    finalized_number: u64,
    finalized_hash: ShellHash,
)
    ensures
        ({
            let outcome = fork_plan(
                view,
                preference,
                total_weight,
                finalized_number,
                finalized_hash,
            );
            let plan = outcome->Ok_0->0;
            let number = (preference.score->0.block_number - preference.new_hashes@.len()) as u64;
            let adopted = outcome matches Ok(Some(_));
            &&& adopted <==> is_to_be_adopted(
                view,
                preference,
                total_weight,
                finalized_number,
                finalized_hash,
                number,
            )
            &&& adopted ==> {
                &&& plan.preferred_hash == preference.preferred_hash
                &&& plan.preferred_number == preference.score->0.block_number
                &&& plan.canonical_number == view.blocks[view.head->0].header.number
                &&& plan.ancestor_hash == preference.ancestor_hash->0
                &&& plan.ancestor_number + preference.new_hashes@.len() == plan.preferred_number
                &&& plan.old_chain.len() == preference.old_hashes@.len()
                &&& plan.new_chain.len() == preference.new_hashes@.len()
                &&& forall|i: int|
                    0 <= i < plan.old_chain.len() ==> (#[trigger] plan.old_chain[i])
                        == view.blocks[preference.old_hashes@[i]]
                &&& forall|i: int|
                    0 <= i < plan.new_chain.len() ==> (#[trigger] plan.new_chain[i])
                        == view.blocks[preference.new_hashes@[i]]
                &&& plan.reverted_txs == unique_reverted(plan.old_chain, plan.new_chain)
            }
        }),
{
    let ancestor = preference.ancestor_hash->0;
    let number = (preference.score->0.block_number - preference.new_hashes@.len()) as u64;
    law_segments_that_are_loaded(
        view,
        Segment::Rollback,
        ancestor,
        number,
        preference.old_hashes@,
        true,
    );
    law_segments_that_are_loaded(
        view,
        Segment::Preferred,
        ancestor,
        number,
        preference.new_hashes@,
        false,
    );
}

/// There is nothing to adopt, and nothing wrong either, exactly if the preferred block is the head or
/// no higher than it, or if its paths fit but no more than two thirds of the weight attested to it.
pub proof fn law_forks_that_have_to_wait(
    view: ChainView,
    preference: ForkPreference,
    total_weight: u64,
    finalized_number: u64,
    finalized_hash: ShellHash,
)
    ensures
        ({
            let outcome = fork_plan(
                view,
                preference,
                total_weight,
                finalized_number,
                finalized_hash,
            );
            let head = view.blocks[view.head->0];
            let score = preference.score->0;
            let new_len = preference.new_hashes@.len();
            let behind = preference.preferred_hash == head.hash || score.block_number
                <= head.header.number;
            let fitting = preference.ancestor_hash is Some && 0 < new_len <= score.block_number
                && head.header.number + new_len == score.block_number
                + preference.old_hashes@.len();
            let waits = outcome matches Ok(None);
            &&& waits <==> {
                &&& view.head is Some
                &&& view.blocks.contains_key(view.head->0)
                &&& preference.score is Some
                &&& behind || (fitting && !(total_weight > 0 && 3 * score.attested_weight > 2
                    * total_weight))
            }
        }),
{
}

proof fn lemma_position(tree: ForkChoiceView, hash: ShellHash, from: int)
    requires
        0 <= from,
    ensures
        match tree.position_from(hash, from) {
            Some(i) => from <= i < tree.blocks.len() && tree.blocks[i].hash == hash && forall|j: int|
                from <= j < i ==> (#[trigger] tree.blocks[j]).hash != hash,
            None => forall|j: int|
                from <= j < tree.blocks.len() ==> (#[trigger] tree.blocks[j]).hash != hash,
        },
    decreases tree.blocks.len() - from,
{
    if from < tree.blocks.len() {
        lemma_position(tree, hash, from + 1);
    }
}

/// A block is in the fork-choice tree exactly if it is the root or one of the blocks above it, and the
/// first of these with its hash says what its parent and its weight are. The root has the zero hash
/// as its parent, and a block that is not in the tree has no parent and no weight.
pub proof fn law_what_fork_choice_knows(tree: ForkChoiceView, hash: ShellHash)
    ensures
        tree.contains(hash) <==> tree.root_hash == hash || exists|i: int|
            0 <= i < tree.blocks.len() && (#[trigger] tree.blocks[i]).hash == hash,
        tree.root_hash == hash ==> tree.parent(hash) is Some && tree.weight(hash)
            == tree.root_weight && forall|k: int| 0 <= k < 32 ==> tree.parent(hash)->0.bytes[k] == 0,
        !tree.contains(hash) ==> tree.parent(hash) is None && tree.weight(hash) == 0,
        forall|i: int|
            0 <= i < tree.blocks.len() && (#[trigger] tree.blocks[i]).hash == hash && tree.root_hash
                != hash && (forall|j: int| 0 <= j < i ==> (#[trigger] tree.blocks[j]).hash != hash)
                ==> tree.parent(hash) == Some(tree.blocks[i].parent_hash) && tree.weight(hash)
                == tree.blocks[i].attested_weight,
{
    lemma_position(tree, hash, 0);
}

/// A block that is new to fork choice is added behind the others; one that is known changes nothing.
pub proof fn law_new_blocks_are_added(tree: ForkChoiceView, block: ForkChoiceBlock)
    ensures
        ({
            let after = tree.with_block(block);
            let known = tree.root_hash == block.hash || exists|i: int|
                0 <= i < tree.blocks.len() && (#[trigger] tree.blocks[i]).hash == block.hash;
            &&& known ==> after == tree
            &&& !known ==> after.blocks == tree.blocks.push(block)
            &&& after.root_hash == tree.root_hash
            &&& after.root_number == tree.root_number
            &&& after.root_finalized == tree.root_finalized
            &&& after.root_weight == tree.root_weight
        }),
{
    lemma_position(tree, block.hash, 0);
}

/// Counting an attestation sets the weight of every entry of its block and leaves all else as it was.
pub proof fn law_attestation_sets_the_weight(tree: ForkChoiceView, hash: ShellHash, weight: u64, i: int)
    requires
        0 <= i < tree.blocks.len(),
    ensures
        ({
            let after = tree.attested(hash, weight);
            &&& after.blocks.len() == tree.blocks.len()
            &&& after.root_hash == tree.root_hash
            &&& after.root_number == tree.root_number
            &&& after.root_finalized == tree.root_finalized
            &&& tree.root_hash == hash ==> after.root_weight == weight
            &&& tree.root_hash != hash ==> after.root_weight == tree.root_weight
            &&& tree.blocks[i].hash == hash ==> after.blocks[i].attested_weight == weight
            &&& tree.blocks[i].hash != hash ==> after.blocks[i] == tree.blocks[i]
            &&& after.blocks[i].hash == tree.blocks[i].hash
            &&& after.blocks[i].parent_hash == tree.blocks[i].parent_hash
            &&& after.blocks[i].number == tree.blocks[i].number
            &&& after.blocks[i].finalized == tree.blocks[i].finalized
        }),
{
}

/// When a block becomes final, a block behind the others stays in fork choice exactly if it is
/// another one and no lower, whatever the others are; in an empty tree there is nothing to drop.
pub proof fn law_only_lower_blocks_leave_fork_choice(
    tree: ForkChoiceView,
    longer: ForkChoiceView,
    block: ForkChoiceBlock,
    hash: ShellHash,
    number: u64,
)
    requires
        longer.blocks == tree.blocks.push(block),
    ensures
        ({
            let few = tree.finalized(hash, number);
            let many = longer.finalized(hash, number);
            &&& block.number >= number && block.hash != hash ==> many.blocks == few.blocks.push(
                block,
            )
            &&& block.number < number || block.hash == hash ==> many.blocks == few.blocks
            &&& tree.blocks.len() == 0 ==> few.blocks.len() == 0
            &&& few.root_hash == hash
            &&& few.root_number == number
            &&& few.root_finalized
            &&& few.root_weight == tree.weight(hash)
        }),
{
    reveal(Seq::filter);
    assert(longer.blocks.drop_last() =~= tree.blocks);
}

/// Whether a block is the canonical one of a height.
pub open spec fn is_canonical_at(view: ChainView, number: int, hash: ShellHash) -> bool {
    view.canonical.contains_key(number as u64) && view.canonical[number as u64] == hash
}

proof fn lemma_canonical_run(view: ChainView, first: int, last: int)
    requires
        0 <= first,
        last <= u64::MAX,
    ensures
        ({
            let run = canonical_run(view, first, last);
            let next = first + run.len();
            &&& next <= last + 1 || run.len() == 0
            &&& forall|i: int|
                0 <= i < run.len() ==> is_canonical_at(view, first + i, #[trigger] run[i])
            &&& next <= last ==> !view.canonical.contains_key(next as u64)
        }),
    decreases last + 1 - first,
{
    if first <= last && view.canonical.contains_key(first as u64) {
        lemma_canonical_run(view, first + 1, last);
        let rest = canonical_run(view, first + 1, last);
        let run = canonical_run(view, first, last);
        assert forall|i: int| 0 <= i < run.len() implies is_canonical_at(
            view,
            first + i,
            #[trigger] run[i],
        ) by {
            if i > 0 {
                assert(run[i] == rest[i - 1]);
            }
        }
    }
}

/// After a restart, fork choice holds the canonical blocks above its root up to the head or to the
/// first height without one, each on the one before it, none attested and none final.
pub proof fn law_restored_fork_choice(view: ChainView, root_number: u64, root: ShellHash, head: u64, i: int)
    requires
        root_number < u64::MAX,
        0 <= i < seed_blocks(
            root_number,
            root,
            canonical_run(view, root_number + 1, head as int),
        ).len(),
    ensures
        ({
            let blocks = seed_blocks(
                root_number,
                root,
                canonical_run(view, root_number + 1, head as int),
            );
            let block = blocks[i];
            let next = root_number + 1 + blocks.len();
            &&& block.number == root_number + 1 + i
            &&& block.number <= head
            &&& view.canonical.contains_key(block.number)
            &&& block.hash == view.canonical[block.number]
            &&& i == 0 ==> block.parent_hash == root
            &&& i > 0 ==> block.parent_hash == view.canonical[(block.number - 1) as u64]
            &&& block.attested_weight == 0
            &&& !block.finalized
            &&& next <= head ==> !view.canonical.contains_key(next as u64)
        }),
{
    lemma_canonical_run(view, root_number + 1, head as int);
    let run = canonical_run(view, root_number + 1, head as int);
    assert(is_canonical_at(view, root_number + 1 + i, run[i]));
    if i > 0 {
        assert(is_canonical_at(view, root_number + 1 + (i - 1), run[i - 1]));
    }
}

/// Nothing is left out after a restart: where fork choice holds no block above its root, the next
/// height is above the head or has no canonical block.
pub proof fn law_restored_fork_choice_is_complete(view: ChainView, root_number: u64, root: ShellHash, head: u64)
    requires
        root_number < head,
        seed_blocks(
            root_number,
            root,
            canonical_run(view, root_number + 1, head as int),
        ).len() == 0,
    ensures
        !view.canonical.contains_key((root_number + 1) as u64),
{
    lemma_canonical_run(view, root_number + 1, head as int);
}

/// Fork choice is rooted at the finalized block after a restart, where one is known that is not the
/// genesis block, and else at the canonical block of height zero, or nowhere.
pub proof fn law_root_after_a_restart(view: ChainView, finalized_number: u64, finalized_hash: ShellHash)
    ensures
        ({
            let (number, hash) = restored_root(view, finalized_number, finalized_hash);
            let known = finalized_number > 0 && exists|k: int|
                0 <= k < 32 && #[trigger] finalized_hash.bytes[k] != 0;
            &&& known ==> number == finalized_number && hash == finalized_hash
            &&& !known ==> number == 0
            &&& !known && view.canonical.contains_key(0) ==> hash == view.canonical[0]
            &&& !known && !view.canonical.contains_key(0) ==> forall|k: int|
                0 <= k < 32 ==> #[trigger] hash.bytes[k] == 0
        }),
{
    let zero = crate::primitives::zero_hash();
    assert forall|k: int| 0 <= k < 32 implies #[trigger] zero.bytes[k] == 0 by {}
    if finalized_hash != zero {
        if forall|k: int| 0 <= k < 32 ==> #[trigger] finalized_hash.bytes[k] == 0 {
            assert(finalized_hash.bytes@ =~= zero.bytes@);
            assert(finalized_hash.bytes =~= zero.bytes);
        }
    }
}

/// Of the blocks that adopting a fork rolls back, a transaction is handed back exactly if no block of
/// the fork holds one of its hash.
pub proof fn law_transactions_that_are_handed_back(
    old_chain: Vec<Block>,
    new_chain: Vec<Block>,
    handed_back: Vec<SignedTransaction>,
    b: int,
    i: int,
)
    requires
        call_ensures(unique_reverted_transactions, (&old_chain, &new_chain), handed_back),
        0 <= b < old_chain@.len(),
        0 <= i < old_chain@[b].transactions@.len(),
    ensures
        ({
            let hash = old_chain@[b].transactions@[i].hash;
            (exists|k: int| 0 <= k < handed_back@.len() && (#[trigger] handed_back@[k]).hash == hash)
                <==> !(exists|c: int, j: int|
                0 <= c < new_chain@.len() && 0 <= j < new_chain@[c].transactions@.len() && (
                #[trigger] new_chain@[c].transactions@[j]).hash == hash)
        }),
{
    let olds = views(old_chain@);
    let news = views(new_chain@);
    let hash = old_chain@[b].transactions@[i].hash;
    assert(olds[b].transactions[i] == old_chain@[b].transactions@[i]);
    law_every_rolled_back_transaction_is_handed_back(olds, news, b, i);
    if exists|c: int, j: int|
        0 <= c < new_chain@.len() && 0 <= j < new_chain@[c].transactions@.len() && (
        #[trigger] new_chain@[c].transactions@[j]).hash == hash {
        let (c, j) = choose|c: int, j: int|
            0 <= c < new_chain@.len() && 0 <= j < new_chain@[c].transactions@.len() && (
            #[trigger] new_chain@[c].transactions@[j]).hash == hash;
        assert(news[c].transactions[j].hash == hash);
    }
    if exists|c: int, j: int|
        0 <= c < news.len() && 0 <= j < news[c].transactions.len() && (
        #[trigger] news[c].transactions[j]).hash == hash {
        let (c, j) = choose|c: int, j: int|
            0 <= c < news.len() && 0 <= j < news[c].transactions.len() && (
            #[trigger] news[c].transactions[j]).hash == hash;
        assert(new_chain@[c].transactions@[j].hash == hash);
    }
}

/// A fork is adopted only with the attestations of more than two thirds of the weight of the
/// validators, and never below the finalized block.
pub proof fn law_adopting_a_fork(
    chain_store: ChainStore,
    preference: ForkPreference,
    weights: Table<Address, u64>,
    finalized_number: u64,
    finalized_hash: ShellHash,
    outcome: Result<Option<ForkAdoptionPlan>, NodeError>,
)
    requires
        call_ensures(
            preferred_fork_plan,
            (&chain_store, &preference, &weights, finalized_number, finalized_hash),
            outcome,
        ),
        quorum::weight_sum(weights.rows()) <= u64::MAX,
    ensures
        ({
            let number = (preference.score->0.block_number - preference.new_hashes@.len()) as u64;
            let total = quorum::weight_sum(weights.rows());
            let adopted = outcome matches Ok(Some(_));
            &&& adopted <==> is_to_be_adopted(
                chain_store@,
                preference,
                total as u64,
                finalized_number,
                finalized_hash,
                number,
            )
            &&& outcome matches Ok(Some(plan)) ==> {
                &&& 3 * preference.score->0.attested_weight > 2 * total
                &&& plan.ancestor_number >= finalized_number
                &&& plan.ancestor_number + plan.new_chain@.len() == plan.preferred_number
                &&& plan.ancestor_number + plan.old_chain@.len() == plan.canonical_number
                &&& plan.preferred_number > plan.canonical_number
            }
        }),
{
    let total = quorum::weight_sum(weights.rows());
    law_forks_that_are_adopted(
        chain_store@,
        preference,
        total as u64,
        finalized_number,
        finalized_hash,
    );
    match outcome {
        Ok(Some(plan)) => {
            assert(plan@.new_chain.len() == plan.new_chain@.len());
            assert(plan@.old_chain.len() == plan.old_chain@.len());
        },
        _ => {},
    }
}

} // verus!
