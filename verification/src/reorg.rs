//! Chain reorganization.
//!
//! When a competing fork becomes the preferred chain, the engine rolls the canonical chain back to
//! the common ancestor, makes the fork canonical, and hands back the transactions that were in the
//! rolled-back blocks only.

use vstd::prelude::*;

use crate::chain::{BlockView, ChainStore, ChainView, SignedTransaction, StoreOp};
use crate::error::{NodeError, Segment};
use crate::primitives::ShellHash;

verus! {

/// Result of a chain reorganization.
#[derive(Debug)]
pub struct ReorgResult {
    /// Common ancestor block number.
    pub ancestor_number: u64,
    /// Common ancestor block hash.
    pub ancestor_hash: ShellHash,
    /// Number of blocks rolled back from the old chain.
    pub rolled_back: usize,
    /// Number of blocks applied from the new chain.
    pub applied: usize,
    /// Transactions from rolled-back blocks that should be re-added to the mempool.
    pub reverted_txs: Vec<SignedTransaction>,
    /// New head block hash after the reorganization.
    pub new_head: ShellHash,
}

/// A reorganization that passed every check: the changes that carry it out, in order, and its
/// result.
#[derive(Debug)]
pub struct ReorgPlan {
    /// The changes, first one first.
    pub ops: Vec<StoreOp>,
    /// What the reorganization amounts to.
    pub result: ReorgResult,
}

/// What the block at position `i` of a chain on top of an ancestor should name as its parent.
pub open spec fn expected_parent(ancestor: ShellHash, chain: Seq<ShellHash>, i: int) -> ShellHash {
    if i == 0 {
        ancestor
    } else {
        chain[i - 1]
    }
}

/// What is wrong with the block at position `i` of a chain on top of an ancestor.
pub open spec fn link_error(
    view: ChainView,
    ancestor: ShellHash,
    ancestor_number: u64,
    chain: Seq<ShellHash>,
    segment: Segment,
    i: int,
) -> Option<NodeError> {
    let hash = chain[i];
    if ancestor_number + i + 1 > u64::MAX {
        Some(NodeError::SegmentHeightOverflow { segment })
    } else if !view.blocks.contains_key(hash) {
        Some(NodeError::SegmentBlockMissing { segment, hash })
    } else if view.blocks[hash].header.number != ancestor_number + i + 1 {
        Some(
            NodeError::SegmentHeightBroken {
                segment,
                hash,
                expected: (ancestor_number + i + 1) as u64,
                got: view.blocks[hash].header.number,
            },
        )
    } else if view.blocks[hash].header.parent_hash != expected_parent(ancestor, chain, i) {
        Some(
            NodeError::SegmentParentBroken {
                segment,
                hash,
                expected_parent: expected_parent(ancestor, chain, i),
                got_parent: view.blocks[hash].header.parent_hash,
            },
        )
    } else {
        None
    }
}

/// What is wrong with the first faulty block among the first `n` of a chain.
pub open spec fn segment_error(
    view: ChainView,
    ancestor: ShellHash,
    ancestor_number: u64,
    chain: Seq<ShellHash>,
    segment: Segment,
    n: nat,
) -> Option<NodeError>
    decreases n,
{
    if n == 0 {
        None
    } else {
        match segment_error(view, ancestor, ancestor_number, chain, segment, (n - 1) as nat) {
            Some(e) => Some(e),
            None => link_error(view, ancestor, ancestor_number, chain, segment, n - 1),
        }
    }
}

/// Whether a chain stands on an ancestor without a gap: every block is known, at the height after
/// its predecessor's, and names its predecessor as its parent.
pub open spec fn is_segment(
    view: ChainView,
    ancestor: ShellHash,
    ancestor_number: u64,
    chain: Seq<ShellHash>,
) -> bool {
    forall|i: int|
        #![trigger chain[i]]
        0 <= i < chain.len() ==> {
            &&& ancestor_number + i + 1 <= u64::MAX
            &&& view.blocks.contains_key(chain[i])
            &&& view.blocks[chain[i]].header.number == ancestor_number + i + 1
            &&& view.blocks[chain[i]].header.parent_hash == expected_parent(ancestor, chain, i)
        }
}

/// A chain has no fault exactly when it stands on its ancestor without a gap.
pub proof fn lemma_segment(
    view: ChainView,
    ancestor: ShellHash,
    ancestor_number: u64,
    chain: Seq<ShellHash>,
    segment: Segment,
)
    ensures
        segment_error(view, ancestor, ancestor_number, chain, segment, chain.len()) is None
            <==> is_segment(view, ancestor, ancestor_number, chain),
{
    lemma_segment_prefix(view, ancestor, ancestor_number, chain, segment, chain.len());
    if is_segment(view, ancestor, ancestor_number, chain) {
        assert forall|i: int| #![trigger chain[i]] 0 <= i < chain.len() implies link_error(
            view,
            ancestor,
            ancestor_number,
            chain,
            segment,
            i,
        ) is None by {}
    } else {
        let i = choose|i: int| #![trigger chain[i]]
            0 <= i < chain.len() && !({
                &&& ancestor_number + i + 1 <= u64::MAX
                &&& view.blocks.contains_key(chain[i])
                &&& view.blocks[chain[i]].header.number == ancestor_number + i + 1
                &&& view.blocks[chain[i]].header.parent_hash == expected_parent(ancestor, chain, i)
            });
        assert(link_error(view, ancestor, ancestor_number, chain, segment, i) is Some);
    }
}

proof fn lemma_segment_prefix(
    view: ChainView,
    ancestor: ShellHash,
    ancestor_number: u64,
    chain: Seq<ShellHash>,
    segment: Segment,
    n: nat,
)
    requires
        n <= chain.len(),
    ensures
        segment_error(view, ancestor, ancestor_number, chain, segment, n) is None <==> forall|i: int|
            #![trigger chain[i]]
            0 <= i < n ==> link_error(view, ancestor, ancestor_number, chain, segment, i) is None,
    decreases n,
{
    if n > 0 {
        lemma_segment_prefix(view, ancestor, ancestor_number, chain, segment, (n - 1) as nat);
        if segment_error(view, ancestor, ancestor_number, chain, segment, n) is None {
            assert forall|i: int| #![trigger chain[i]] 0 <= i < n implies link_error(
                view,
                ancestor,
                ancestor_number,
                chain,
                segment,
                i,
            ) is None by {
                if i == n - 1 {
                }
            }
        } else if segment_error(view, ancestor, ancestor_number, chain, segment, (n - 1) as nat) is None {
            let last = chain[n - 1];
            assert(link_error(view, ancestor, ancestor_number, chain, segment, n - 1) is Some);
        }
    }
}

/// The head of the chain once a chain is applied on top of an ancestor.
pub open spec fn new_tip(ancestor: ShellHash, chain: Seq<ShellHash>) -> ShellHash {
    expected_parent(ancestor, chain, chain.len() as int)
}

/// Why a reorganization is refused, if it is.
pub open spec fn reorg_error(
    view: ChainView,
    ancestor: ShellHash,
    ancestor_number: u64,
    old_chain: Seq<ShellHash>,
    new_chain: Seq<ShellHash>,
    finalized: u64,
) -> Option<NodeError> {
    let at_finalized = finalized > 0 && ancestor_number == finalized;
    let old_error = segment_error(
        view,
        ancestor,
        ancestor_number,
        old_chain,
        Segment::Old,
        old_chain.len(),
    );
    let new_error = segment_error(
        view,
        ancestor,
        ancestor_number,
        new_chain,
        Segment::New,
        new_chain.len(),
    );
    if ancestor_number < finalized {
        Some(NodeError::ReorgPastFinalized { finalized, ancestor: ancestor_number })
    } else if at_finalized && !view.canonical.contains_key(finalized) {
        Some(NodeError::FinalizedMappingMissing { finalized })
    } else if at_finalized && view.canonical[finalized] != ancestor {
        Some(NodeError::FinalizedAncestorMismatch { finalized })
    } else if old_error is Some {
        old_error
    } else if new_error is Some {
        new_error
    } else if !view.blocks.contains_key(ancestor) {
        Some(NodeError::AncestorMissing { hash: ancestor })
    } else if !view.state_roots.contains(view.blocks[ancestor].header.state_root) {
        Some(NodeError::StateUnavailable { root: view.blocks[ancestor].header.state_root })
    } else if !view.state_roots.contains(view.blocks[new_tip(ancestor, new_chain)].header.state_root) {
        Some(
            NodeError::StateUnavailable {
                root: view.blocks[new_tip(ancestor, new_chain)].header.state_root,
            },
        )
    } else {
        None
    }
}

/// The changes that take the transactions of the rolled-back blocks out of the index.
pub open spec fn rollback_ops(old_chain: Seq<ShellHash>) -> Seq<StoreOp> {
    Seq::new(old_chain.len(), |i: int| StoreOp::DeleteTransactionIndexes(old_chain[i]))
}

/// The changes that make the applied blocks canonical and index their transactions.
pub open spec fn adopt_ops(ancestor_number: u64, new_chain: Seq<ShellHash>) -> Seq<StoreOp>
    decreases new_chain.len(),
{
    if new_chain.len() == 0 {
        Seq::empty()
    } else {
        adopt_ops(ancestor_number, new_chain.drop_last()).push(
            StoreOp::SetCanonical((ancestor_number + new_chain.len()) as u64, new_chain.last()),
        ).push(StoreOp::IndexTransactions(new_chain.last()))
    }
}

/// The changes that leave the heights above the new tip without a canonical block.
pub open spec fn stale_ops(ancestor_number: u64, old_len: nat, new_len: nat) -> Seq<StoreOp> {
    Seq::new(
        if old_len > new_len {
            (old_len - new_len) as nat
        } else {
            0
        },
        |i: int| StoreOp::DeleteCanonical((ancestor_number + new_len + 1 + i) as u64),
    )
}

/// The changes that end a reorganization: the world state and the head of the new tip, and the
/// counters anew where there are any.
pub open spec fn tip_ops(
    view: ChainView,
    ancestor: ShellHash,
    ancestor_number: u64,
    new_chain: Seq<ShellHash>,
) -> Seq<StoreOp> {
    let tip = new_tip(ancestor, new_chain);
    let ops = seq![StoreOp::SetWorldRoot(view.blocks[tip].header.state_root), StoreOp::SetHead(tip)];
    if view.totals is Some {
        ops.push(StoreOp::RebuildTotals((ancestor_number + new_chain.len()) as u64))
    } else {
        ops
    }
}

/// All changes of a reorganization, first one first.
pub open spec fn reorg_ops(
    view: ChainView,
    ancestor: ShellHash,
    ancestor_number: u64,
    old_chain: Seq<ShellHash>,
    new_chain: Seq<ShellHash>,
) -> Seq<StoreOp> {
    seq![StoreOp::SetWorldRoot(view.blocks[ancestor].header.state_root)] + rollback_ops(old_chain)
        + adopt_ops(ancestor_number, new_chain) + stale_ops(
        ancestor_number,
        old_chain.len(),
        new_chain.len(),
    ) + tip_ops(view, ancestor, ancestor_number, new_chain)
}

/// The transactions of a chain's blocks, newest block first.
pub open spec fn transactions_newest_first(view: ChainView, chain: Seq<ShellHash>) -> Seq<
    SignedTransaction,
>
    decreases chain.len(),
{
    if chain.len() == 0 {
        Seq::empty()
    } else {
        view.blocks[chain.last()].transactions + transactions_newest_first(view, chain.drop_last())
    }
}

/// The hashes of the transactions in a chain's blocks.
pub open spec fn chain_tx_hashes(view: ChainView, chain: Seq<ShellHash>) -> Set<ShellHash> {
    Set::new(
        |h: ShellHash|
            exists|i: int|
                0 <= i < chain.len() && crate::chain::hashes_of(
                    view.blocks[#[trigger] chain[i]].transactions,
                ).contains(h),
    )
}

/// The test that a transaction's hash is not among some hashes.
pub open spec fn hash_outside(hashes: Set<ShellHash>) -> spec_fn(SignedTransaction) -> bool {
    |tx: SignedTransaction| !hashes.contains(tx.hash)
}

/// The transactions that a reorganization hands back: those of the rolled-back blocks, newest block
/// first, without the ones that the new chain holds too.
pub open spec fn reverted(
    view: ChainView,
    old_chain: Seq<ShellHash>,
    new_chain: Seq<ShellHash>,
) -> Seq<SignedTransaction> {
    transactions_newest_first(view, old_chain).filter(
        hash_outside(chain_tx_hashes(view, new_chain)),
    )
}

/// Whether a result is the one of a reorganization.
pub open spec fn is_result(
    result: ReorgResult,
    view: ChainView,
    ancestor: ShellHash,
    ancestor_number: u64,
    old_chain: Seq<ShellHash>,
    new_chain: Seq<ShellHash>,
) -> bool {
    &&& result.ancestor_number == ancestor_number
    &&& result.ancestor_hash == ancestor
    &&& result.rolled_back == old_chain.len()
    &&& result.applied == new_chain.len()
    &&& result.reverted_txs@ == reverted(view, old_chain, new_chain)
    &&& result.new_head == new_tip(ancestor, new_chain)
}

/// Whether a list of hashes holds a hash.
pub fn contains_hash(hashes: &Vec<ShellHash>, hash: &ShellHash) -> (r: bool)
    ensures
        r == hashes@.contains(*hash),
{
    let mut i: usize = 0;
    while i < hashes.len()
        invariant
            i <= hashes@.len(),
            forall|j: int| 0 <= j < i ==> hashes@[j] != *hash,
        decreases hashes.len() - i,
    {
        if hashes[i] == *hash {
            assert(hashes@[i as int] == *hash);
            return true;
        }
        i += 1;
    }
    false
}

/// Executes chain reorganizations.
pub struct ReorgEngine;

impl ReorgEngine {
    /// Checks that a chain stands on its ancestor without a gap, and says what is wrong with its
    /// first faulty block.
    fn validate_chain_segment(
        chain_store: &ChainStore,
        ancestor_hash: ShellHash,
        ancestor_number: u64,
        chain: &[ShellHash],
        segment: Segment,
    ) -> (r: Result<(), NodeError>)
        ensures
            match segment_error(
                chain_store@,
                ancestor_hash,
                ancestor_number,
                chain@,
                segment,
                chain@.len(),
            ) {
                Some(e) => r == Err::<(), NodeError>(e),
                None => r is Ok,
            },
    {
        let mut parent = ancestor_hash;
        let mut i: usize = 0;
        let ghost view = chain_store@;
        while i < chain.len()
            invariant
                i <= chain@.len(),
                view == chain_store@,
                parent == expected_parent(ancestor_hash, chain@, i as int),
                segment_error(view, ancestor_hash, ancestor_number, chain@, segment, i as nat) is None,
            decreases chain.len() - i,
        {
            let hash = chain[i];
            let ghost fault = link_error(
                view,
                ancestor_hash,
                ancestor_number,
                chain@,
                segment,
                i as int,
            );
            assert(segment_error(view, ancestor_hash, ancestor_number, chain@, segment, (i + 1) as nat) == fault);
            proof {
                if fault is Some {
                    lemma_first_fault(
                        view,
                        ancestor_hash,
                        ancestor_number,
                        chain@,
                        segment,
                        (i + 1) as nat,
                        chain@.len(),
                    );
                }
            }
            let expected: u64 = match ancestor_number.checked_add(i as u64) {
                Some(n) => match n.checked_add(1) {
                    Some(m) => m,
                    None => {
                        return Err(NodeError::SegmentHeightOverflow { segment });
                    },
                },
                None => {
                    return Err(NodeError::SegmentHeightOverflow { segment });
                },
            };
            match chain_store.get_block_by_hash(&hash) {
                Some(block) => {
                    if block.header.number != expected {
                        return Err(
                            NodeError::SegmentHeightBroken {
                                segment,
                                hash,
                                expected,
                                got: block.header.number,
                            },
                        );
                    }
                    if block.header.parent_hash != parent {
                        return Err(
                            NodeError::SegmentParentBroken {
                                segment,
                                hash,
                                expected_parent: parent,
                                got_parent: block.header.parent_hash,
                            },
                        );
                    }
                },
                None => {
                    return Err(NodeError::SegmentBlockMissing { segment, hash });
                },
            }
            parent = hash;
            i += 1;
        }
        Ok(())
    }
}

/// The transactions of a chain's blocks, newest block first.
fn collect_newest_first(chain_store: &ChainStore, chain: &[ShellHash]) -> (r: Vec<SignedTransaction>)
    requires
        forall|i: int| 0 <= i < chain@.len() ==> chain_store@.blocks.contains_key(#[trigger] chain@[i]),
    ensures
        r@ == transactions_newest_first(chain_store@, chain@),
{
    let mut out: Vec<SignedTransaction> = Vec::new();
    let mut n: usize = chain.len();
    let ghost view = chain_store@;
    assert(chain@.take(n as int) =~= chain@);
    while n > 0
        invariant
            n <= chain@.len(),
            view == chain_store@,
            forall|i: int| 0 <= i < chain@.len() ==> view.blocks.contains_key(#[trigger] chain@[i]),
            out@ + transactions_newest_first(view, chain@.take(n as int))
                == transactions_newest_first(view, chain@),
        decreases n,
    {
        n -= 1;
        let ghost before = out@;
        let ghost rest = transactions_newest_first(view, chain@.take(n as int));
        assert(chain@.take(n + 1).drop_last() =~= chain@.take(n as int));
        let hash = chain[n];
        assert(view.blocks.contains_key(chain@[n as int]));
        if let Some(block) = chain_store.get_block_by_hash(&hash) {
            let mut i: usize = 0;
            assert(block.transactions@.take(0) =~= Seq::empty());
            while i < block.transactions.len()
                invariant
                    i <= block.transactions@.len(),
                    out@ == before + block.transactions@.take(i as int),
                decreases block.transactions.len() - i,
            {
                out.push(block.transactions[i]);
                assert(out@ =~= before + block.transactions@.take(i + 1));
                i += 1;
            }
            assert(block.transactions@.take(i as int) =~= block.transactions@);
            assert(view.blocks[hash].transactions == block.transactions@);
            assert(out@ + rest =~= before + (view.blocks[hash].transactions + rest));
        }
    }
    assert(out@ + transactions_newest_first(view, chain@.take(0)) =~= out@);
    out
}

/// The hashes of the transactions in a chain's blocks.
fn collect_tx_hashes(chain_store: &ChainStore, chain: &[ShellHash]) -> (r: Vec<ShellHash>)
    requires
        forall|i: int| 0 <= i < chain@.len() ==> chain_store@.blocks.contains_key(#[trigger] chain@[i]),
    ensures
        forall|h: ShellHash|
            r@.contains(h) == #[trigger] chain_tx_hashes(chain_store@, chain@).contains(h),
{
    let mut out: Vec<ShellHash> = Vec::new();
    let mut n: usize = 0;
    let ghost view = chain_store@;
    while n < chain.len()
        invariant
            n <= chain@.len(),
            view == chain_store@,
            forall|i: int| 0 <= i < chain@.len() ==> view.blocks.contains_key(#[trigger] chain@[i]),
            forall|h: ShellHash|
                out@.contains(h) == #[trigger] chain_tx_hashes(view, chain@.take(n as int)).contains(h),
        decreases chain.len() - n,
    {
        let hash = chain[n];
        let ghost before = out@;
        assert(view.blocks.contains_key(chain@[n as int]));
        if let Some(block) = chain_store.get_block_by_hash(&hash) {
            let ghost txs = block.transactions@;
            let mut i: usize = 0;
            while i < block.transactions.len()
                invariant
                    i <= txs.len(),
                    txs == block.transactions@,
                    out@.len() == before.len() + i,
                    out@.take(before.len() as int) == before,
                    forall|j: int| 0 <= j < i ==> out@[before.len() + j] == txs[j].hash,
                decreases block.transactions.len() - i,
            {
                out.push(block.transactions[i].hash);
                assert(out@.take(before.len() as int) =~= before);
                i += 1;
            }
            proof {
                let prefix = chain@.take(n as int);
                let longer = chain@.take(n + 1);
                assert(view.blocks[hash].transactions == txs);
                assert forall|h: ShellHash|
                    out@.contains(h) == #[trigger] chain_tx_hashes(view, longer).contains(h) by {
                    assert(before.contains(h) == chain_tx_hashes(view, prefix).contains(h));
                    if out@.contains(h) {
                        let k = choose|k: int| 0 <= k < out@.len() && out@[k] == h;
                        if k < before.len() {
                            assert(out@.take(before.len() as int)[k] == h);
                            assert(before.contains(h));
                            let i0 = choose|i: int|
                                0 <= i < prefix.len() && crate::chain::hashes_of(
                                    view.blocks[#[trigger] prefix[i]].transactions,
                                ).contains(h);
                            assert(longer[i0] == prefix[i0]);
                        } else {
                            assert(txs[k - before.len()].hash == h);
                            assert(longer[n as int] == hash);
                        }
                    }
                    if chain_tx_hashes(view, longer).contains(h) {
                        let i0 = choose|i: int|
                            0 <= i < longer.len() && crate::chain::hashes_of(
                                view.blocks[#[trigger] longer[i]].transactions,
                            ).contains(h);
                        if i0 < n {
                            assert(prefix[i0] == longer[i0]);
                            assert(before.contains(h));
                            let k = choose|k: int| 0 <= k < before.len() && before[k] == h;
                            assert(out@.take(before.len() as int)[k] == h);
                            assert(out@[k] == h);
                        } else {
                            let j = choose|j: int| 0 <= j < txs.len() && (#[trigger] txs[j]).hash == h;
                            assert(out@[before.len() + j] == h);
                        }
                    }
                }
            }
        }
        n += 1;
    }
    assert(chain@.take(n as int) =~= chain@);
    out
}

/// The transactions whose hash is not among some hashes, in their order.
fn drop_hashes(txs: &Vec<SignedTransaction>, hashes: &Vec<ShellHash>, Ghost(set): Ghost<Set<ShellHash>>) -> (r: Vec<
    SignedTransaction,
>)
    requires
        forall|h: ShellHash| hashes@.contains(h) == #[trigger] set.contains(h),
    ensures
        r@ == txs@.filter(hash_outside(set)),
{
    let mut out: Vec<SignedTransaction> = Vec::new();
    let mut i: usize = 0;
    proof {
        reveal(Seq::filter);
        assert(txs@.take(0) =~= Seq::empty());
    }
    while i < txs.len()
        invariant
            i <= txs@.len(),
            forall|h: ShellHash| hashes@.contains(h) == #[trigger] set.contains(h),
            out@ == txs@.take(i as int).filter(hash_outside(set)),
        decreases txs.len() - i,
    {
        proof {
            reveal(Seq::filter);
            assert(txs@.take(i + 1).drop_last() =~= txs@.take(i as int));
            assert(txs@.take(i + 1).last() == txs@[i as int]);
            assert(hashes@.contains(txs@[i as int].hash) == set.contains(txs@[i as int].hash));
        }
        let tx = txs[i];
        if !contains_hash(hashes, &tx.hash) {
            out.push(tx);
        }
        i += 1;
    }
    assert(txs@.take(i as int) =~= txs@);
    out
}

impl ReorgEngine {
    /// Checks a reorganization and lists the changes that carry it out, without making any.
    ///
    /// The ancestor must not lie below the finalized block; at the finalized height it must be the
    /// canonical block. Both chains must stand on the ancestor without a gap, and the world states
    /// of the ancestor and of the new tip must be available.
    pub fn plan(
        chain_store: &ChainStore,
        ancestor_hash: ShellHash,
        ancestor_number: u64,
        old_chain: &[ShellHash],
        new_chain: &[ShellHash],
        finalized_number: u64,
    ) -> (r: Result<ReorgPlan, NodeError>)
        ensures
            match reorg_error(
                chain_store@,
                ancestor_hash,
                ancestor_number,
                old_chain@,
                new_chain@,
                finalized_number,
            ) {
                Some(e) => r == Err::<ReorgPlan, NodeError>(e),
                None => r matches Ok(plan) && plan.ops@ == reorg_ops(
                    chain_store@,
                    ancestor_hash,
                    ancestor_number,
                    old_chain@,
                    new_chain@,
                ) && is_result(
                    plan.result,
                    chain_store@,
                    ancestor_hash,
                    ancestor_number,
                    old_chain@,
                    new_chain@,
                ),
            },
    {
        let ghost view = chain_store@;
        if ancestor_number < finalized_number {
            return Err(
                NodeError::ReorgPastFinalized {
                    finalized: finalized_number,
                    ancestor: ancestor_number,
                },
            );
        }
        if finalized_number > 0 && ancestor_number == finalized_number {
            match chain_store.get_block_hash_by_number(finalized_number) {
                Some(canonical) => {
                    if ancestor_hash != canonical {
                        return Err(
                            NodeError::FinalizedAncestorMismatch { finalized: finalized_number },
                        );
                    }
                },
                None => {
                    return Err(NodeError::FinalizedMappingMissing { finalized: finalized_number });
                },
            }
        }
        match Self::validate_chain_segment(
            chain_store,
            ancestor_hash,
            ancestor_number,
            old_chain,
            Segment::Old,
        ) {
            Ok(()) => {},
            Err(e) => {
                return Err(e);
            },
        }
        match Self::validate_chain_segment(
            chain_store,
            ancestor_hash,
            ancestor_number,
            new_chain,
            Segment::New,
        ) {
            Ok(()) => {},
            Err(e) => {
                return Err(e);
            },
        }
        proof {
            lemma_segment(view, ancestor_hash, ancestor_number, old_chain@, Segment::Old);
            lemma_segment(view, ancestor_hash, ancestor_number, new_chain@, Segment::New);
        }
        let ancestor_root = match chain_store.get_block_by_hash(&ancestor_hash) {
            Some(block) => block.header.state_root,
            None => {
                return Err(NodeError::AncestorMissing { hash: ancestor_hash });
            },
        };
        if !chain_store.has_state(&ancestor_root) {
            return Err(NodeError::StateUnavailable { root: ancestor_root });
        }
        let new_head = if new_chain.len() == 0 {
            ancestor_hash
        } else {
            new_chain[new_chain.len() - 1]
        };
        assert(new_head == new_tip(ancestor_hash, new_chain@));
        assert(view.blocks.contains_key(new_head));
        let tip_root = match chain_store.get_block_by_hash(&new_head) {
            Some(block) => block.header.state_root,
            None => ancestor_root,
        };
        if !chain_store.has_state(&tip_root) {
            return Err(NodeError::StateUnavailable { root: tip_root });
        }
        let collected = collect_newest_first(chain_store, old_chain);
        let adopted = collect_tx_hashes(chain_store, new_chain);
        let reverted_txs = drop_hashes(
            &collected,
            &adopted,
            Ghost(chain_tx_hashes(view, new_chain@)),
        );
        let ops = Self::list_ops(
            chain_store,
            ancestor_number,
            ancestor_root,
            old_chain,
            new_chain,
            new_head,
            tip_root,
        );
        assert(ops@ =~= reorg_ops(view, ancestor_hash, ancestor_number, old_chain@, new_chain@));
        Ok(
            ReorgPlan {
                ops,
                result: ReorgResult {
                    ancestor_number,
                    ancestor_hash,
                    rolled_back: old_chain.len(),
                    applied: new_chain.len(),
                    reverted_txs,
                    new_head,
                },
            },
        )
    }

    fn list_ops(
        chain_store: &ChainStore,
        ancestor_number: u64,
        ancestor_root: ShellHash,
        old_chain: &[ShellHash],
        new_chain: &[ShellHash],
        new_head: ShellHash,
        tip_root: ShellHash,
    ) -> (r: Vec<StoreOp>)
        requires
            old_chain@.len() > 0 ==> ancestor_number + old_chain@.len() <= u64::MAX,
            new_chain@.len() > 0 ==> ancestor_number + new_chain@.len() <= u64::MAX,
        ensures
            r@ == seq![StoreOp::SetWorldRoot(ancestor_root)] + rollback_ops(old_chain@) + adopt_ops(
                ancestor_number,
                new_chain@,
            ) + stale_ops(ancestor_number, old_chain@.len(), new_chain@.len()) + (if chain_store@.totals is Some {
                seq![StoreOp::SetWorldRoot(tip_root), StoreOp::SetHead(new_head)].push(
                    StoreOp::RebuildTotals((ancestor_number + new_chain@.len()) as u64),
                )
            } else {
                seq![StoreOp::SetWorldRoot(tip_root), StoreOp::SetHead(new_head)]
            }),
    {
        let mut ops: Vec<StoreOp> = Vec::new();
        ops.push(StoreOp::SetWorldRoot(ancestor_root));
        let ghost first = ops@;
        let ghost rollback = rollback_ops(old_chain@);
        let mut i: usize = 0;
        assert(first + rollback.take(0) =~= first);
        while i < old_chain.len()
            invariant
                i <= old_chain@.len(),
                rollback == rollback_ops(old_chain@),
                ops@ == first + rollback.take(i as int),
            decreases old_chain.len() - i,
        {
            ops.push(StoreOp::DeleteTransactionIndexes(old_chain[i]));
            assert(ops@ =~= first + rollback.take(i + 1));
            i += 1;
        }
        assert(rollback.take(i as int) =~= rollback);
        let ghost second = ops@;
        let mut j: usize = 0;
        assert(second + adopt_ops(ancestor_number, new_chain@.take(0)) =~= second);
        while j < new_chain.len()
            invariant
                j <= new_chain@.len(),
                new_chain@.len() > 0 ==> ancestor_number + new_chain@.len() <= u64::MAX,
                ops@ == second + adopt_ops(ancestor_number, new_chain@.take(j as int)),
            decreases new_chain.len() - j,
        {
            let ghost shorter = adopt_ops(ancestor_number, new_chain@.take(j as int));
            ops.push(StoreOp::SetCanonical(ancestor_number + j as u64 + 1, new_chain[j]));
            ops.push(StoreOp::IndexTransactions(new_chain[j]));
            proof {
                let longer = new_chain@.take(j + 1);
                assert(longer.drop_last() =~= new_chain@.take(j as int));
                assert(ops@ =~= second + adopt_ops(ancestor_number, longer));
            }
            j += 1;
        }
        assert(new_chain@.take(j as int) =~= new_chain@);
        let ghost third = ops@;
        let ghost stale = stale_ops(ancestor_number, old_chain@.len(), new_chain@.len());
        assert(third + stale.take(0) =~= third);
        if old_chain.len() > new_chain.len() {
            let mut k: usize = new_chain.len();
            while k < old_chain.len()
                invariant
                    new_chain@.len() <= k <= old_chain@.len(),
                    old_chain@.len() > new_chain@.len(),
                    ancestor_number + old_chain@.len() <= u64::MAX,
                    stale == stale_ops(ancestor_number, old_chain@.len(), new_chain@.len()),
                    ops@ == third + stale.take(k - new_chain@.len()),
                decreases old_chain.len() - k,
            {
                ops.push(StoreOp::DeleteCanonical(ancestor_number + k as u64 + 1));
                assert(ops@ =~= third + stale.take(k - new_chain@.len() + 1));
                k += 1;
            }
        }
        assert(ops@ =~= third + stale);
        ops.push(StoreOp::SetWorldRoot(tip_root));
        ops.push(StoreOp::SetHead(new_head));
        if chain_store.get_chain_totals().is_some() {
            ops.push(StoreOp::RebuildTotals(ancestor_number + new_chain.len() as u64));
        }
        ops
    }

    /// Execute a chain reorganization from the current head to a target fork.
    ///
    /// * `chain_store`: the chain index
    /// * `ancestor_hash`, `ancestor_number`: the common ancestor block
    /// * `old_chain`: hashes of blocks to roll back, oldest first
    /// * `new_chain`: hashes of blocks to apply, oldest first
    /// * `finalized_number`: latest finalized height, below which no block is rolled back
    pub fn execute(
        chain_store: &mut ChainStore,
        ancestor_hash: ShellHash,
        ancestor_number: u64,
        old_chain: &[ShellHash],
        new_chain: &[ShellHash],
        finalized_number: u64,
    ) -> (r: Result<ReorgResult, NodeError>)
        ensures
            match reorg_error(
                old(chain_store)@,
                ancestor_hash,
                ancestor_number,
                old_chain@,
                new_chain@,
                finalized_number,
            ) {
                Some(e) => r == Err::<ReorgResult, NodeError>(e) && final(chain_store)@ == old(
                    chain_store,
                )@,
                None => r matches Ok(result) && is_result(
                    result,
                    old(chain_store)@,
                    ancestor_hash,
                    ancestor_number,
                    old_chain@,
                    new_chain@,
                ) && final(chain_store)@ == old(chain_store)@.apply_all(
                    reorg_ops(
                        old(chain_store)@,
                        ancestor_hash,
                        ancestor_number,
                        old_chain@,
                        new_chain@,
                    ),
                ) && final(chain_store)@.canonical == canonical_after(
                    old(chain_store)@.canonical,
                    ancestor_number,
                    old_chain@.len(),
                    new_chain@,
                ),
            },
    {
        match Self::plan(
            &*chain_store,
            ancestor_hash,
            ancestor_number,
            old_chain,
            new_chain,
            finalized_number,
        ) {
            Ok(plan) => {
                proof {
                    lemma_reorg_effect(
                        chain_store@,
                        ancestor_hash,
                        ancestor_number,
                        old_chain@,
                        new_chain@,
                        finalized_number,
                    );
                }
                chain_store.apply_all(&plan.ops);
                Ok(plan.result)
            },
            Err(e) => Err(e),
        }
    }
}

/// The canonical chain after a reorganization: the applied blocks above the ancestor, nothing on
/// the heights that only the rolled-back blocks held, and what was there everywhere else.
pub open spec fn canonical_after(
    canonical: Map<u64, ShellHash>,
    ancestor_number: u64,
    old_len: nat,
    new_chain: Seq<ShellHash>,
) -> Map<u64, ShellHash> {
    let applied = |n: u64| ancestor_number < n <= ancestor_number + new_chain.len();
    let stale = |n: u64| ancestor_number + new_chain.len() < n <= ancestor_number + old_len;
    Map::new(
        |n: u64| applied(n) || (canonical.contains_key(n) && !stale(n)),
        |n: u64|
            if applied(n) {
                new_chain[n - ancestor_number - 1]
            } else {
                canonical[n]
            },
    )
}

/// Whether an index of transactions is the one after a reorganization: the transactions of the new
/// chain are in it, those that only the old chain held are not, and all others stand as before.
pub open spec fn index_after(
    view: ChainView,
    index: Map<ShellHash, (ShellHash, u64)>,
    old_chain: Seq<ShellHash>,
    new_chain: Seq<ShellHash>,
) -> bool {
    let rolled_back = chain_tx_hashes(view, old_chain);
    let adopted = chain_tx_hashes(view, new_chain);
    &&& forall|h: ShellHash| #[trigger]
        index.contains_key(h) <==> adopted.contains(h) || (view.tx_index.contains_key(h)
            && !rolled_back.contains(h))
    &&& forall|h: ShellHash|
        index.contains_key(h) && !adopted.contains(h) ==> #[trigger] index[h] == view.tx_index[h]
}

proof fn lemma_rollback_effect(view: ChainView, old_chain: Seq<ShellHash>)
    requires
        forall|i: int| 0 <= i < old_chain.len() ==> view.blocks.contains_key(#[trigger] old_chain[i]),
    ensures
        view.apply_all(rollback_ops(old_chain)) == (ChainView {
            tx_index: view.tx_index.remove_keys(chain_tx_hashes(view, old_chain)),
            ..view
        }),
    decreases old_chain.len(),
{
    let ops = rollback_ops(old_chain);
    if old_chain.len() == 0 {
        assert(view.tx_index.remove_keys(chain_tx_hashes(view, old_chain)) =~= view.tx_index);
    } else {
        let init = old_chain.drop_last();
        let last = old_chain.last();
        assert forall|i: int| 0 <= i < init.len() implies view.blocks.contains_key(#[trigger] init[i]) by {
            assert(view.blocks.contains_key(old_chain[i]));
        }
        assert(view.blocks.contains_key(old_chain[old_chain.len() - 1]));
        lemma_rollback_effect(view, init);
        assert(ops.drop_last() =~= rollback_ops(init));
        let all = chain_tx_hashes(view, old_chain);
        let some = chain_tx_hashes(view, init);
        let own = crate::chain::hashes_of(view.blocks[last].transactions);
        assert forall|h: ShellHash| #[trigger] all.contains(h) == (some.contains(h) || own.contains(h)) by {
            if all.contains(h) {
                let i = choose|i: int|
                    0 <= i < old_chain.len() && crate::chain::hashes_of(
                        view.blocks[#[trigger] old_chain[i]].transactions,
                    ).contains(h);
                if i < init.len() {
                    assert(init[i] == old_chain[i]);
                }
            }
            if some.contains(h) {
                let i = choose|i: int|
                    0 <= i < init.len() && crate::chain::hashes_of(
                        view.blocks[#[trigger] init[i]].transactions,
                    ).contains(h);
                assert(old_chain[i] == init[i]);
            }
            if own.contains(h) {
                assert(old_chain[old_chain.len() - 1] == last);
            }
        }
        assert(view.tx_index.remove_keys(some).remove_keys(own) =~= view.tx_index.remove_keys(all));
    }
}

proof fn lemma_with_indexed(index: Map<ShellHash, (ShellHash, u64)>, block: BlockView, n: nat)
    requires
        n <= block.transactions.len(),
    ensures
        ({
            let after = crate::chain::with_indexed(index, block, n);
            let own = crate::chain::hashes_of(block.transactions.take(n as int));
            &&& forall|h: ShellHash| #[trigger]
                after.contains_key(h) <==> index.contains_key(h) || own.contains(h)
            &&& forall|h: ShellHash| index.contains_key(h) && !own.contains(h) ==> #[trigger] after[h] == index[h]
        }),
    decreases n,
{
    if n > 0 {
        lemma_with_indexed(index, block, (n - 1) as nat);
        let shorter = block.transactions.take(n - 1);
        let longer = block.transactions.take(n as int);
        let added = block.transactions[n - 1].hash;
        assert forall|h: ShellHash| #[trigger]
            crate::chain::hashes_of(longer).contains(h) <==> crate::chain::hashes_of(
                shorter,
            ).contains(h) || h == added by {
            if h == added {
                assert(longer[n - 1].hash == h);
            }
            if crate::chain::hashes_of(shorter).contains(h) {
                let j = choose|j: int| 0 <= j < shorter.len() && (#[trigger] shorter[j]).hash == h;
                assert(longer[j].hash == h);
            }
            if crate::chain::hashes_of(longer).contains(h) {
                let j = choose|j: int| 0 <= j < longer.len() && (#[trigger] longer[j]).hash == h;
                if j < n - 1 {
                    assert(shorter[j].hash == h);
                }
            }
        }
        let before = crate::chain::with_indexed(index, block, (n - 1) as nat);
        let after = crate::chain::with_indexed(index, block, n);
        assert(after == before.insert(added, (block.hash, (n - 1) as u64)));
        assert forall|h: ShellHash| #[trigger]
            after.contains_key(h) <==> index.contains_key(h) || crate::chain::hashes_of(
                longer,
            ).contains(h) by {
            assert(before.contains_key(h) <==> index.contains_key(h) || crate::chain::hashes_of(
                shorter,
            ).contains(h));
        }
        assert forall|h: ShellHash|
            index.contains_key(h) && !crate::chain::hashes_of(longer).contains(h) implies #[trigger] after[h]
            == index[h] by {
            assert(before[h] == index[h]);
        }
    }
}

/// Which transactions are indexed once a chain's blocks have been adopted.
proof fn lemma_adopt_index(view: ChainView, ancestor_number: u64, new_chain: Seq<ShellHash>)
    requires
        forall|i: int| 0 <= i < new_chain.len() ==> view.blocks.contains_key(#[trigger] new_chain[i]),
        new_chain.len() > 0 ==> ancestor_number + new_chain.len() <= u64::MAX,
    ensures
        ({
            let after = view.apply_all(adopt_ops(ancestor_number, new_chain)).tx_index;
            let own = chain_tx_hashes(view, new_chain);
            &&& forall|h: ShellHash| #[trigger]
                after.contains_key(h) <==> view.tx_index.contains_key(h) || own.contains(h)
            &&& forall|h: ShellHash|
                view.tx_index.contains_key(h) && !own.contains(h) ==> #[trigger] after[h]
                    == view.tx_index[h]
        }),
    decreases new_chain.len(),
{
    if new_chain.len() > 0 {
        let init = new_chain.drop_last();
        let last = new_chain.last();
        assert forall|i: int| 0 <= i < init.len() implies view.blocks.contains_key(#[trigger] init[i]) by {
            assert(view.blocks.contains_key(new_chain[i]));
        }
        assert(view.blocks.contains_key(new_chain[new_chain.len() - 1]));
        lemma_adopt_index(view, ancestor_number, init);
        lemma_adopt_effect(view, ancestor_number, init);
        let ops = adopt_ops(ancestor_number, new_chain);
        let mid = view.apply_all(adopt_ops(ancestor_number, init));
        let set = StoreOp::SetCanonical((ancestor_number + new_chain.len()) as u64, last);
        let two = ops.drop_last();
        assert(two =~= adopt_ops(ancestor_number, init).push(set));
        assert(two.drop_last() =~= adopt_ops(ancestor_number, init));
        assert(view.apply_all(two) == mid.apply(set));
        let block = view.blocks[last];
        lemma_with_indexed(mid.tx_index, block, block.transactions.len());
        assert(block.transactions.take(block.transactions.len() as int) =~= block.transactions);
        let some = chain_tx_hashes(view, init);
        let all = chain_tx_hashes(view, new_chain);
        let own = crate::chain::hashes_of(block.transactions);
        assert forall|h: ShellHash| #[trigger] all.contains(h) == (some.contains(h) || own.contains(h)) by {
            if all.contains(h) {
                let i = choose|i: int|
                    0 <= i < new_chain.len() && crate::chain::hashes_of(
                        view.blocks[#[trigger] new_chain[i]].transactions,
                    ).contains(h);
                if i < init.len() {
                    assert(init[i] == new_chain[i]);
                }
            }
            if some.contains(h) {
                let i = choose|i: int|
                    0 <= i < init.len() && crate::chain::hashes_of(
                        view.blocks[#[trigger] init[i]].transactions,
                    ).contains(h);
                assert(new_chain[i] == init[i]);
            }
            if own.contains(h) {
                assert(new_chain[new_chain.len() - 1] == last);
            }
        }
    }
}

proof fn lemma_adopt_effect(view: ChainView, ancestor_number: u64, new_chain: Seq<ShellHash>)
    requires
        new_chain.len() > 0 ==> ancestor_number + new_chain.len() <= u64::MAX,
    ensures
        ({
            let after = view.apply_all(adopt_ops(ancestor_number, new_chain));
            &&& after.canonical == canonical_after(view.canonical, ancestor_number, 0, new_chain)
            &&& after == (ChainView { canonical: after.canonical, tx_index: after.tx_index, ..view })
        }),
    decreases new_chain.len(),
{
    let ops = adopt_ops(ancestor_number, new_chain);
    if new_chain.len() == 0 {
        assert(canonical_after(view.canonical, ancestor_number, 0, new_chain) =~= view.canonical);
    } else {
        let init = new_chain.drop_last();
        lemma_adopt_effect(view, ancestor_number, init);
        let number = (ancestor_number + new_chain.len()) as u64;
        let two = ops.drop_last();
        assert(two =~= adopt_ops(ancestor_number, init).push(StoreOp::SetCanonical(number, new_chain.last())));
        assert(two.drop_last() =~= adopt_ops(ancestor_number, init));
        let mid = view.apply_all(adopt_ops(ancestor_number, init));
        assert(view.apply_all(two) == mid.apply(StoreOp::SetCanonical(number, new_chain.last())));
        assert(mid.canonical.insert(number, new_chain.last()) =~= canonical_after(
            view.canonical,
            ancestor_number,
            0,
            new_chain,
        ));
    }
}

proof fn lemma_stale_effect(view: ChainView, ancestor_number: u64, old_len: nat, new_len: nat, k: nat)
    requires
        k <= stale_ops(ancestor_number, old_len, new_len).len(),
        old_len > 0 ==> ancestor_number + old_len <= u64::MAX,
    ensures
        view.apply_all(stale_ops(ancestor_number, old_len, new_len).take(k as int)) == (ChainView {
            canonical: view.canonical.remove_keys(
                Set::new(|n: u64| ancestor_number + new_len < n <= ancestor_number + new_len + k),
            ),
            ..view
        }),
    decreases k,
{
    let ops = stale_ops(ancestor_number, old_len, new_len);
    let gone = |k: nat|
        Set::new(|n: u64| ancestor_number + new_len < n <= ancestor_number + new_len + k);
    if k == 0 {
        assert(view.canonical.remove_keys(gone(0)) =~= view.canonical);
    } else {
        lemma_stale_effect(view, ancestor_number, old_len, new_len, (k - 1) as nat);
        assert(ops.take(k as int).drop_last() =~= ops.take(k - 1));
        assert(ops.take(k as int).last() == ops[k - 1]);
        assert(view.canonical.remove_keys(gone((k - 1) as nat)).remove(
            (ancestor_number + new_len + k) as u64,
        ) =~= view.canonical.remove_keys(gone(k)));
    }
}

/// What the changes of an accepted reorganization do.
///
/// The heights above the ancestor hold the applied blocks and nothing beyond them that was rolled
/// back; every other height keeps its block. The head and the world state are those of the new tip.
/// The counters, where there are any, count the new canonical chain. Transactions that only the
/// rolled-back blocks held are no longer indexed. Known blocks and headers, available states and the
/// recorded finality stay as they were.
pub proof fn lemma_reorg_effect(
    view: ChainView,
    ancestor: ShellHash,
    ancestor_number: u64,
    old_chain: Seq<ShellHash>,
    new_chain: Seq<ShellHash>,
    finalized: u64,
)
    requires
        reorg_error(view, ancestor, ancestor_number, old_chain, new_chain, finalized) is None,
    ensures
        ({
            let after = view.apply_all(
                reorg_ops(view, ancestor, ancestor_number, old_chain, new_chain),
            );
            let tip = new_tip(ancestor, new_chain);
            &&& after.canonical == canonical_after(
                view.canonical,
                ancestor_number,
                old_chain.len(),
                new_chain,
            )
            &&& after.head == Some(tip)
            &&& after.world_root == view.blocks[tip].header.state_root
            &&& after.blocks == view.blocks
            &&& after.headers == view.headers
            &&& after.finalized == view.finalized
            &&& after.state_roots == view.state_roots
            &&& index_after(view, after.tx_index, old_chain, new_chain)
            &&& view.totals is None ==> after.totals is None
            &&& view.totals is Some ==> after.totals == Some(
                crate::chain::ChainTotals {
                    head: (ancestor_number + new_chain.len()) as u64,
                    transactions: after.transactions_below(
                        (ancestor_number + new_chain.len() + 1) as nat,
                    ) as u128,
                    gas_used: after.gas_below(
                        (ancestor_number + new_chain.len() + 1) as nat,
                    ) as u128,
                },
            )
        }),
{
    lemma_segment(view, ancestor, ancestor_number, old_chain, Segment::Old);
    lemma_segment(view, ancestor, ancestor_number, new_chain, Segment::New);
    if old_chain.len() > 0 {
        let last = old_chain[old_chain.len() - 1];
    }
    if new_chain.len() > 0 {
        let last = new_chain[new_chain.len() - 1];
    }
    let body = seq![StoreOp::SetWorldRoot(view.blocks[ancestor].header.state_root)] + rollback_ops(
        old_chain,
    ) + adopt_ops(ancestor_number, new_chain) + stale_ops(
        ancestor_number,
        old_chain.len(),
        new_chain.len(),
    );
    lemma_body_effect(view, view.blocks[ancestor].header.state_root, ancestor_number, old_chain, new_chain);
    let end = tip_ops(view, ancestor, ancestor_number, new_chain);
    crate::chain::lemma_apply_all_concat(view, body, end);
    lemma_tip_effect(view, view.apply_all(body), ancestor, ancestor_number, new_chain);
}

proof fn lemma_body_effect(
    view: ChainView,
    ancestor_root: ShellHash,
    ancestor_number: u64,
    old_chain: Seq<ShellHash>,
    new_chain: Seq<ShellHash>,
)
    requires
        forall|i: int| 0 <= i < old_chain.len() ==> view.blocks.contains_key(#[trigger] old_chain[i]),
        forall|i: int| 0 <= i < new_chain.len() ==> view.blocks.contains_key(#[trigger] new_chain[i]),
        ancestor_number + old_chain.len() <= u64::MAX,
        ancestor_number + new_chain.len() <= u64::MAX,
    ensures
        ({
            let after = view.apply_all(
                seq![StoreOp::SetWorldRoot(ancestor_root)] + rollback_ops(old_chain) + adopt_ops(
                    ancestor_number,
                    new_chain,
                ) + stale_ops(ancestor_number, old_chain.len(), new_chain.len()),
            );
            &&& after.canonical == canonical_after(
                view.canonical,
                ancestor_number,
                old_chain.len(),
                new_chain,
            )
            &&& after == (ChainView {
                canonical: after.canonical,
                tx_index: after.tx_index,
                world_root: ancestor_root,
                ..view
            })
            &&& index_after(view, after.tx_index, old_chain, new_chain)
        }),
{
    let first = seq![StoreOp::SetWorldRoot(ancestor_root)];
    let rollback = rollback_ops(old_chain);
    let adopt = adopt_ops(ancestor_number, new_chain);
    let stale = stale_ops(ancestor_number, old_chain.len(), new_chain.len());
    let v1 = view.apply_all(first);
    assert(v1 == view.apply(first[0])) by {
        reveal_with_fuel(ChainView::apply_all, 2);
        assert(first.drop_last() =~= Seq::empty());
    }
    lemma_rollback_effect(v1, old_chain);
    let v2 = v1.apply_all(rollback);
    lemma_adopt_effect(v2, ancestor_number, new_chain);
    let v3 = v2.apply_all(adopt);
    lemma_adopt_index(v2, ancestor_number, new_chain);
    assert(chain_tx_hashes(v1, old_chain) =~= chain_tx_hashes(view, old_chain));
    assert(chain_tx_hashes(v2, new_chain) =~= chain_tx_hashes(view, new_chain));
    lemma_stale_effect(v3, ancestor_number, old_chain.len(), new_chain.len(), stale.len());
    assert(stale.take(stale.len() as int) =~= stale);
    let v4 = v3.apply_all(stale);
    assert(v4.canonical =~= canonical_after(
        view.canonical,
        ancestor_number,
        old_chain.len(),
        new_chain,
    ));
    crate::chain::lemma_apply_all_concat(view, first + rollback + adopt, stale);
    crate::chain::lemma_apply_all_concat(view, first + rollback, adopt);
    crate::chain::lemma_apply_all_concat(view, first, rollback);
}

proof fn lemma_tip_effect(
    view: ChainView,
    before: ChainView,
    ancestor: ShellHash,
    ancestor_number: u64,
    new_chain: Seq<ShellHash>,
)
    requires
        ancestor_number + new_chain.len() <= u64::MAX,
        before.totals == view.totals,
    ensures
        ({
            let after = before.apply_all(tip_ops(view, ancestor, ancestor_number, new_chain));
            let tip = new_tip(ancestor, new_chain);
            let height = (ancestor_number + new_chain.len()) as u64;
            &&& after == (ChainView {
                head: Some(tip),
                world_root: view.blocks[tip].header.state_root,
                totals: after.totals,
                ..before
            })
            &&& view.totals is None ==> after.totals is None
            &&& view.totals is Some ==> after.totals == Some(
                crate::chain::ChainTotals {
                    head: height,
                    transactions: after.transactions_below((height + 1) as nat) as u128,
                    gas_used: after.gas_below((height + 1) as nat) as u128,
                },
            )
        }),
{
    let tip = new_tip(ancestor, new_chain);
    let root = StoreOp::SetWorldRoot(view.blocks[tip].header.state_root);
    let two = seq![root, StoreOp::SetHead(tip)];
    let end = tip_ops(view, ancestor, ancestor_number, new_chain);
    let mid = before.apply_all(two);
    assert(mid == before.apply(root).apply(StoreOp::SetHead(tip))) by {
        reveal_with_fuel(ChainView::apply_all, 3);
        assert(two.drop_last() =~= seq![root]);
        assert(seq![root].drop_last() =~= Seq::<StoreOp>::empty());
    }
    if view.totals is Some {
        let height = (ancestor_number + new_chain.len()) as u64;
        assert(end.drop_last() =~= two);
        let after = before.apply_all(end);
        assert(after == mid.apply(StoreOp::RebuildTotals(height)));
        lemma_same_counts(mid, after, (height + 1) as nat);
    }
}

proof fn lemma_same_counts(a: ChainView, b: ChainView, n: nat)
    requires
        a.blocks == b.blocks,
        a.canonical == b.canonical,
    ensures
        a.transactions_below(n) == b.transactions_below(n),
        a.gas_below(n) == b.gas_below(n),
    decreases n,
{
    if n > 0 {
        lemma_same_counts(a, b, (n - 1) as nat);
    }
}

/// What is wrong with a prefix of a chain is what is wrong with the chain.
proof fn lemma_first_fault(
    view: ChainView,
    ancestor: ShellHash,
    ancestor_number: u64,
    chain: Seq<ShellHash>,
    segment: Segment,
    m: nat,
    n: nat,
)
    requires
        m <= n,
        segment_error(view, ancestor, ancestor_number, chain, segment, m) is Some,
    ensures
        segment_error(view, ancestor, ancestor_number, chain, segment, n) == segment_error(
            view,
            ancestor,
            ancestor_number,
            chain,
            segment,
            m,
        ),
    decreases n,
{
    if m < n {
        lemma_first_fault(view, ancestor, ancestor_number, chain, segment, m, (n - 1) as nat);
    }
}

/// A reorganization never touches what is final: it is refused below the finalized height, and an
/// accepted one leaves every canonical block up to that height in place.
pub proof fn law_finalized_blocks_stay(
    view: ChainView,
    ancestor: ShellHash,
    ancestor_number: u64,
    old_chain: Seq<ShellHash>,
    new_chain: Seq<ShellHash>,
    finalized: u64,
    number: u64,
)
    requires
        reorg_error(view, ancestor, ancestor_number, old_chain, new_chain, finalized) is None,
        number <= finalized,
    ensures
        ancestor_number >= finalized,
        ({
            let after = view.apply_all(
                reorg_ops(view, ancestor, ancestor_number, old_chain, new_chain),
            );
            &&& after.canonical.contains_key(number) == view.canonical.contains_key(number)
            &&& view.canonical.contains_key(number) ==> after.canonical[number]
                == view.canonical[number]
        }),
{
    lemma_reorg_effect(view, ancestor, ancestor_number, old_chain, new_chain, finalized);
}

/// Rolling a reorganization back, from the new chain to the old one over the same ancestor, gives
/// back the canonical chain, wherever the old chain was canonical up to its tip and nothing stood
/// above it.
pub proof fn law_reorg_back_restores_canonical(
    canonical: Map<u64, ShellHash>,
    ancestor_number: u64,
    old_chain: Seq<ShellHash>,
    new_chain: Seq<ShellHash>,
)
    requires
        ancestor_number + old_chain.len() <= u64::MAX,
        ancestor_number + new_chain.len() <= u64::MAX,
        forall|i: int|
            0 <= i < old_chain.len() ==> canonical.contains_key((ancestor_number + 1 + i) as u64)
                && canonical[(ancestor_number + 1 + i) as u64] == #[trigger] old_chain[i],
        forall|n: u64|
            n > ancestor_number + old_chain.len() ==> !#[trigger] canonical.contains_key(n),
    ensures
        canonical_after(
            canonical_after(canonical, ancestor_number, old_chain.len(), new_chain),
            ancestor_number,
            new_chain.len(),
            old_chain,
        ) == canonical,
{
    let there = canonical_after(canonical, ancestor_number, old_chain.len(), new_chain);
    let back = canonical_after(there, ancestor_number, new_chain.len(), old_chain);
    assert forall|n: u64| #[trigger] back.contains_key(n) == canonical.contains_key(n) by {
        if ancestor_number < n <= ancestor_number + old_chain.len() {
            let i = n - ancestor_number - 1;
            assert(canonical[(ancestor_number + 1 + i) as u64] == old_chain[i]);
        }
    }
    assert forall|n: u64| #[trigger] back.contains_key(n) implies back[n] == canonical[n] by {
        if ancestor_number < n <= ancestor_number + old_chain.len() {
            let i = n - ancestor_number - 1;
            assert(canonical[(ancestor_number + 1 + i) as u64] == old_chain[i]);
        }
    }
    assert(back =~= canonical);
}

proof fn lemma_newest_first_member(view: ChainView, chain: Seq<ShellHash>, i: int, j: int)
    requires
        0 <= i < chain.len(),
        0 <= j < view.blocks[chain[i]].transactions.len(),
    ensures
        transactions_newest_first(view, chain).contains(view.blocks[chain[i]].transactions[j]),
    decreases chain.len(),
{
    let tx = view.blocks[chain[i]].transactions[j];
    let last = view.blocks[chain.last()].transactions;
    let rest = transactions_newest_first(view, chain.drop_last());
    if i == chain.len() - 1 {
        assert((last + rest)[j] == tx);
    } else {
        lemma_newest_first_member(view, chain.drop_last(), i, j);
        let k = choose|k: int| 0 <= k < rest.len() && rest[k] == tx;
        assert((last + rest)[last.len() + k] == tx);
    }
}

proof fn lemma_filter_members(txs: Seq<SignedTransaction>, keep: spec_fn(SignedTransaction) -> bool)
    ensures
        forall|tx: SignedTransaction| #[trigger]
            txs.filter(keep).contains(tx) <==> txs.contains(tx) && keep(tx),
    decreases txs.len(),
{
    reveal(Seq::filter);
    if txs.len() > 0 {
        let init = txs.drop_last();
        lemma_filter_members(init, keep);
        assert forall|tx: SignedTransaction| #[trigger] txs.filter(keep).contains(tx)
            <==> txs.contains(tx) && keep(tx) by {
            let kept = init.filter(keep);
            let all = txs.filter(keep);
            assert(kept.contains(tx) <==> init.contains(tx) && keep(tx));
            if all.contains(tx) {
                let k = choose|k: int| 0 <= k < all.len() && all[k] == tx;
                if k < kept.len() {
                    assert(kept[k] == tx);
                    let j = choose|j: int| 0 <= j < init.len() && init[j] == tx;
                    assert(txs[j] == tx);
                } else {
                    assert(txs[txs.len() - 1] == tx);
                }
            }
            if txs.contains(tx) && keep(tx) {
                let j = choose|j: int| 0 <= j < txs.len() && txs[j] == tx;
                if j < init.len() {
                    assert(init[j] == tx);
                    let k = choose|k: int| 0 <= k < kept.len() && kept[k] == tx;
                    assert(all[k] == tx);
                } else {
                    assert(all[all.len() - 1] == tx);
                }
            }
        }
    }
}

/// No transaction is lost: a transaction of a rolled-back block is handed back exactly if the new
/// chain does not hold it.
pub proof fn law_reverted_are_those_not_adopted(
    view: ChainView,
    old_chain: Seq<ShellHash>,
    new_chain: Seq<ShellHash>,
    i: int,
    j: int,
)
    requires
        0 <= i < old_chain.len(),
        0 <= j < view.blocks[old_chain[i]].transactions.len(),
    ensures
        ({
            let tx = view.blocks[old_chain[i]].transactions[j];
            reverted(view, old_chain, new_chain).contains(tx) <==> !chain_tx_hashes(
                view,
                new_chain,
            ).contains(tx.hash)
        }),
{
    let keep = hash_outside(chain_tx_hashes(view, new_chain));
    lemma_filter_members(transactions_newest_first(view, old_chain), keep);
    lemma_newest_first_member(view, old_chain, i, j);
}

/// A reorganization is carried out exactly when it goes no deeper than finality, stands on the
/// canonical block there where its ancestor is the finalized height, both chains stand on the
/// ancestor without a gap, the ancestor is known, and the world states of the ancestor and of the new
/// tip can be opened.
pub proof fn law_reorganizations_that_are_carried_out(
    view: ChainView,
    ancestor: ShellHash,
    ancestor_number: u64,
    old_chain: Seq<ShellHash>,
    new_chain: Seq<ShellHash>,
    finalized: u64,
)
    ensures
        reorg_error(view, ancestor, ancestor_number, old_chain, new_chain, finalized) is None <==> {
            let tip = if new_chain.len() == 0 {
                ancestor
            } else {
                new_chain.last()
            };
            &&& ancestor_number >= finalized
            &&& ancestor_number == finalized > 0 ==> view.canonical.contains_key(finalized)
                && view.canonical[finalized] == ancestor
            &&& forall|i: int|
                0 <= i < old_chain.len() ==> {
                    let hash = #[trigger] old_chain[i];
                    &&& view.blocks.contains_key(hash)
                    &&& view.blocks[hash].header.number == ancestor_number + i + 1
                    &&& i == 0 ==> view.blocks[hash].header.parent_hash == ancestor
                    &&& i > 0 ==> view.blocks[hash].header.parent_hash == old_chain[i - 1]
                }
            &&& forall|i: int|
                0 <= i < new_chain.len() ==> {
                    let hash = #[trigger] new_chain[i];
                    &&& view.blocks.contains_key(hash)
                    &&& view.blocks[hash].header.number == ancestor_number + i + 1
                    &&& i == 0 ==> view.blocks[hash].header.parent_hash == ancestor
                    &&& i > 0 ==> view.blocks[hash].header.parent_hash == new_chain[i - 1]
                }
            &&& view.blocks.contains_key(ancestor)
            &&& view.state_roots.contains(view.blocks[ancestor].header.state_root)
            &&& view.state_roots.contains(view.blocks[tip].header.state_root)
        },
{
    lemma_segment(view, ancestor, ancestor_number, old_chain, Segment::Old);
    lemma_segment(view, ancestor, ancestor_number, new_chain, Segment::New);
    lemma_plain_segment(view, ancestor, ancestor_number, old_chain);
    lemma_plain_segment(view, ancestor, ancestor_number, new_chain);
}

proof fn lemma_plain_segment(
    view: ChainView,
    ancestor: ShellHash,
    ancestor_number: u64,
    chain: Seq<ShellHash>,
)
    ensures
        is_segment(view, ancestor, ancestor_number, chain) <==> forall|i: int|
            0 <= i < chain.len() ==> {
                let hash = #[trigger] chain[i];
                &&& view.blocks.contains_key(hash)
                &&& view.blocks[hash].header.number == ancestor_number + i + 1
                &&& i == 0 ==> view.blocks[hash].header.parent_hash == ancestor
                &&& i > 0 ==> view.blocks[hash].header.parent_hash == chain[i - 1]
            },
{
    let plain = forall|i: int|
        0 <= i < chain.len() ==> {
            let hash = #[trigger] chain[i];
            &&& view.blocks.contains_key(hash)
            &&& view.blocks[hash].header.number == ancestor_number + i + 1
            &&& i == 0 ==> view.blocks[hash].header.parent_hash == ancestor
            &&& i > 0 ==> view.blocks[hash].header.parent_hash == chain[i - 1]
        };
    if is_segment(view, ancestor, ancestor_number, chain) {
        assert forall|i: int| 0 <= i < chain.len() implies ({
            let hash = #[trigger] chain[i];
            &&& view.blocks.contains_key(hash)
            &&& view.blocks[hash].header.number == ancestor_number + i + 1
            &&& i == 0 ==> view.blocks[hash].header.parent_hash == ancestor
            &&& i > 0 ==> view.blocks[hash].header.parent_hash == chain[i - 1]
        }) by {
            assert(view.blocks[chain[i]].header.parent_hash == expected_parent(ancestor, chain, i));
        }
        assert(plain);
    }
    if plain {
        if chain.len() > 0 {
            let tip = view.blocks[chain[chain.len() - 1]].header.number;
            assert(tip == ancestor_number + chain.len());
        }
        assert(is_segment(view, ancestor, ancestor_number, chain));
    }
}

/// Whether one of a chain's blocks holds a transaction of a hash.
pub open spec fn holds_transaction(view: ChainView, chain: Seq<ShellHash>, hash: ShellHash) -> bool {
    exists|i: int, j: int|
        0 <= i < chain.len() && 0 <= j < view.blocks[chain[i]].transactions.len() && (
        #[trigger] view.blocks[chain[i]].transactions[j]).hash == hash
}

proof fn lemma_holds_transaction(view: ChainView, chain: Seq<ShellHash>, hash: ShellHash)
    ensures
        chain_tx_hashes(view, chain).contains(hash) <==> holds_transaction(view, chain, hash),
{
    if chain_tx_hashes(view, chain).contains(hash) {
        let i = choose|i: int|
            0 <= i < chain.len() && crate::chain::hashes_of(
                view.blocks[#[trigger] chain[i]].transactions,
            ).contains(hash);
        let txs = view.blocks[chain[i]].transactions;
        let j = choose|j: int| 0 <= j < txs.len() && (#[trigger] txs[j]).hash == hash;
        assert(view.blocks[chain[i]].transactions[j].hash == hash);
    }
    if holds_transaction(view, chain, hash) {
        let (i, j) = choose|i: int, j: int|
            0 <= i < chain.len() && 0 <= j < view.blocks[chain[i]].transactions.len() && (
            #[trigger] view.blocks[chain[i]].transactions[j]).hash == hash;
        assert(crate::chain::hashes_of(view.blocks[chain[i]].transactions).contains(hash));
    }
}

/// What a reorganization leaves behind: the new chain is canonical above the ancestor and nothing is
/// above its tip where the old chain was, all other heights are as before; its tip is the head and
/// gives the world state; and the index finds every transaction of the new chain, none that only the
/// old chain held, and any other as before.
pub proof fn law_after_a_reorganization(
    view: ChainView,
    ancestor: ShellHash,
    ancestor_number: u64,
    old_chain: Seq<ShellHash>,
    new_chain: Seq<ShellHash>,
    finalized: u64,
    number: u64,
    hash: ShellHash,
)
    requires
        reorg_error(view, ancestor, ancestor_number, old_chain, new_chain, finalized) is None,
    ensures
        ({
            let after = view.apply_all(
                reorg_ops(view, ancestor, ancestor_number, old_chain, new_chain),
            );
            let tip = if new_chain.len() == 0 {
                ancestor
            } else {
                new_chain.last()
            };
            let adopted = exists|i: int, j: int|
                0 <= i < new_chain.len() && 0 <= j < view.blocks[new_chain[i]].transactions.len()
                    && (#[trigger] view.blocks[new_chain[i]].transactions[j]).hash == hash;
            let rolled_back = exists|i: int, j: int|
                0 <= i < old_chain.len() && 0 <= j < view.blocks[old_chain[i]].transactions.len()
                    && (#[trigger] view.blocks[old_chain[i]].transactions[j]).hash == hash;
            &&& after.head == Some(tip)
            &&& after.world_root == view.blocks[tip].header.state_root
            &&& ancestor_number < number <= ancestor_number + new_chain.len()
                ==> after.canonical.contains_key(number) && after.canonical[number]
                == new_chain[number - ancestor_number - 1]
            &&& ancestor_number + new_chain.len() < number <= ancestor_number + old_chain.len()
                ==> !after.canonical.contains_key(number)
            &&& number <= ancestor_number || (number > ancestor_number + new_chain.len() && number
                > ancestor_number + old_chain.len()) ==> (after.canonical.contains_key(number)
                <==> view.canonical.contains_key(number)) && (view.canonical.contains_key(number)
                ==> after.canonical[number] == view.canonical[number])
            &&& after.tx_index.contains_key(hash) <==> adopted || (view.tx_index.contains_key(hash)
                && !rolled_back)
            &&& !adopted && view.tx_index.contains_key(hash) && !rolled_back
                ==> after.tx_index[hash] == view.tx_index[hash]
            &&& after.blocks == view.blocks
            &&& after.finalized == view.finalized
            &&& after.totals is Some <==> view.totals is Some
            &&& after.totals matches Some(totals) ==> totals.head == ancestor_number
                + new_chain.len()
        }),
{
    lemma_reorg_effect(view, ancestor, ancestor_number, old_chain, new_chain, finalized);
    lemma_segment(view, ancestor, ancestor_number, new_chain, Segment::New);
    if new_chain.len() > 0 {
        let last = new_chain[new_chain.len() - 1];
    }
    lemma_holds_transaction(view, old_chain, hash);
    lemma_holds_transaction(view, new_chain, hash);
    let after = view.apply_all(reorg_ops(view, ancestor, ancestor_number, old_chain, new_chain));
    assert(after.tx_index.contains_key(hash) <==> chain_tx_hashes(view, new_chain).contains(hash)
        || (view.tx_index.contains_key(hash) && !chain_tx_hashes(view, old_chain).contains(hash)));
    if after.tx_index.contains_key(hash) && !chain_tx_hashes(view, new_chain).contains(hash) {
        assert(after.tx_index[hash] == view.tx_index[hash]);
    }
}

/// What a reorganization hands back comes newest block first: the transactions of a block more on top
/// of the rolled-back chain come before all others, in the block's order, without those that the new
/// chain holds.
pub proof fn law_newest_are_handed_back_first(
    view: ChainView,
    old_chain: Seq<ShellHash>,
    block: ShellHash,
    new_chain: Seq<ShellHash>,
    tx: SignedTransaction,
)
    ensures
        ({
            let own = reverted(view, seq![block], new_chain);
            &&& reverted(view, Seq::empty(), new_chain) == Seq::<SignedTransaction>::empty()
            &&& reverted(view, old_chain.push(block), new_chain) == own + reverted(
                view,
                old_chain,
                new_chain,
            )
            &&& new_chain.len() == 0 ==> own == view.blocks[block].transactions
            &&& own.contains(tx) <==> view.blocks[block].transactions.contains(tx) && !(
            exists|i: int, j: int|
                0 <= i < new_chain.len() && 0 <= j < view.blocks[new_chain[i]].transactions.len()
                    && (#[trigger] view.blocks[new_chain[i]].transactions[j]).hash == tx.hash)
        }),
{
    let keep = hash_outside(chain_tx_hashes(view, new_chain));
    let rest = transactions_newest_first(view, old_chain);
    let txs = view.blocks[block].transactions;
    let longer = old_chain.push(block);
    assert(longer.drop_last() =~= old_chain);
    assert(longer.last() == block);
    lemma_filter_joined(txs, rest, keep);
    assert(seq![block].drop_last() =~= Seq::empty());
    assert(transactions_newest_first(view, Seq::empty()) =~= Seq::empty());
    assert(txs + Seq::empty() =~= txs);
    assert(transactions_newest_first(view, seq![block]) =~= txs);
    reveal(Seq::filter);
    lemma_filter_members(txs, keep);
    lemma_holds_transaction(view, new_chain, tx.hash);
    if new_chain.len() == 0 {
        assert forall|t: SignedTransaction| #[trigger] keep(t) by {
            lemma_holds_transaction(view, new_chain, t.hash);
        }
        lemma_filter_all(txs, keep);
    }
}

proof fn lemma_filter_all(txs: Seq<SignedTransaction>, keep: spec_fn(SignedTransaction) -> bool)
    requires
        forall|t: SignedTransaction| #[trigger] keep(t),
    ensures
        txs.filter(keep) == txs,
    decreases txs.len(),
{
    reveal(Seq::filter);
    if txs.len() > 0 {
        lemma_filter_all(txs.drop_last(), keep);
        assert(keep(txs.last()));
        assert(txs.drop_last().push(txs.last()) =~= txs);
    }
}

proof fn lemma_filter_joined(
    first: Seq<SignedTransaction>,
    second: Seq<SignedTransaction>,
    keep: spec_fn(SignedTransaction) -> bool,
)
    ensures
        (first + second).filter(keep) == first.filter(keep) + second.filter(keep),
    decreases second.len(),
{
    reveal(Seq::filter);
    if second.len() == 0 {
        assert(first + second =~= first);
        assert(first.filter(keep) + second.filter(keep) =~= first.filter(keep));
    } else {
        assert((first + second).drop_last() =~= first + second.drop_last());
        lemma_filter_joined(first, second.drop_last(), keep);
        assert((first + second).filter(keep) =~= first.filter(keep) + second.filter(keep));
    }
}

/// A reorganization that is carried out leaves the fork canonical above the ancestor and nothing of the
/// rolled-back chain, the head at the tip of the fork, and every transaction of the fork in the index;
/// one that is refused changes nothing.
pub proof fn law_carrying_out_a_reorganization(
    store: &mut ChainStore,
    ancestor: ShellHash,
    ancestor_number: u64,
    old_chain: &[ShellHash],
    new_chain: &[ShellHash],
    finalized: u64,
    outcome: Result<ReorgResult, NodeError>,
    number: u64,
    hash: ShellHash,
)
    requires
        call_ensures(
            ReorgEngine::execute,
            (store, ancestor, ancestor_number, old_chain, new_chain, finalized),
            outcome,
        ),
    ensures
        ({
            let before = old(store)@;
            let after = final(store)@;
            let news = new_chain@;
            let olds = old_chain@;
            let tip = if news.len() == 0 {
                ancestor
            } else {
                news[news.len() - 1]
            };
            &&& outcome is Err ==> after == before
            &&& outcome matches Ok(result) ==> {
                &&& ancestor_number >= finalized
                &&& after.head == Some(tip)
                &&& result.new_head == tip
                &&& result.ancestor_hash == ancestor
                &&& result.ancestor_number == ancestor_number
                &&& result.rolled_back == olds.len()
                &&& result.applied == news.len()
                &&& after.world_root == before.blocks[tip].header.state_root
                &&& ancestor_number < number <= ancestor_number + news.len()
                    ==> after.canonical.contains_key(number) && after.canonical[number]
                    == news[number - ancestor_number - 1]
                &&& ancestor_number + news.len() < number <= ancestor_number + olds.len()
                    ==> !after.canonical.contains_key(number)
                &&& number <= ancestor_number ==> (after.canonical.contains_key(number)
                    <==> before.canonical.contains_key(number)) && (before.canonical.contains_key(
                    number,
                ) ==> after.canonical[number] == before.canonical[number])
                &&& (exists|i: int, j: int|
                    0 <= i < news.len() && 0 <= j < before.blocks[news[i]].transactions.len() && (
                    #[trigger] before.blocks[news[i]].transactions[j]).hash == hash)
                    ==> after.tx_index.contains_key(hash)
                &&& (exists|k: int|
                    0 <= k < result.reverted_txs@.len() && (
                    #[trigger] result.reverted_txs@[k]).hash == hash) ==> !(exists|i: int, j: int|
                    0 <= i < news.len() && 0 <= j < before.blocks[news[i]].transactions.len() && (
                    #[trigger] before.blocks[news[i]].transactions[j]).hash == hash)
            }
        }),
{
    let before = old(store)@;
    if outcome is Ok {
        law_after_a_reorganization(
            before,
            ancestor,
            ancestor_number,
            old_chain@,
            new_chain@,
            finalized,
            number,
            hash,
        );
        lemma_holds_transaction(before, new_chain@, hash);
        let txs = outcome->Ok_0.reverted_txs@;
        let keep = hash_outside(chain_tx_hashes(before, new_chain@));
        lemma_filter_members(transactions_newest_first(before, old_chain@), keep);
        if exists|k: int| 0 <= k < txs.len() && (#[trigger] txs[k]).hash == hash {
            let k = choose|k: int| 0 <= k < txs.len() && (#[trigger] txs[k]).hash == hash;
            assert(keep(txs[k]));
        }
    }
}

/// Whether the block at position `i` of a chain is known, at the height that follows from its place,
/// and on the block before it or on the ancestor.
pub open spec fn is_linked(
    view: ChainView,
    ancestor: ShellHash,
    ancestor_number: u64,
    chain: Seq<ShellHash>,
    i: int,
) -> bool {
    let header = view.blocks[chain[i]].header;
    &&& view.blocks.contains_key(chain[i])
    &&& header.number == ancestor_number + 1 + i
    &&& i == 0 ==> header.parent_hash == ancestor
    &&& i > 0 ==> header.parent_hash == chain[i - 1]
}

/// The first block of a chain that is not linked is the one that a refusal names, with what is wrong
/// with it: there is no such height, it is not known, its height is another one, or its parent is.
pub proof fn law_first_unlinked_block_is_named(
    view: ChainView,
    ancestor: ShellHash,
    ancestor_number: u64,
    chain: Seq<ShellHash>,
    segment: Segment,
    i: int,
)
    requires
        0 <= i < chain.len(),
        !is_linked(view, ancestor, ancestor_number, chain, i),
        forall|j: int|
            0 <= j < i ==> #[trigger] is_linked(view, ancestor, ancestor_number, chain, j),
    ensures
        ({
            let error = segment_error(
                view,
                ancestor,
                ancestor_number,
                chain,
                segment,
                chain.len(),
            );
            let header = view.blocks[chain[i]].header;
            let number = ancestor_number + 1 + i;
            let parent = if i == 0 {
                ancestor
            } else {
                chain[i - 1]
            };
            let known = view.blocks.contains_key(chain[i]);
            let exists_height = number <= 0xffff_ffff_ffff_ffff;
            &&& !exists_height ==> error == Some(NodeError::SegmentHeightOverflow { segment })
            &&& exists_height && !known ==> error == Some(
                NodeError::SegmentBlockMissing { segment, hash: chain[i] },
            )
            &&& exists_height && known && header.number != number ==> error == Some(
                NodeError::SegmentHeightBroken {
                    segment,
                    hash: chain[i],
                    expected: number as u64,
                    got: header.number,
                },
            )
            &&& exists_height && known && header.number == number ==> error == Some(
                NodeError::SegmentParentBroken {
                    segment,
                    hash: chain[i],
                    expected_parent: parent,
                    got_parent: header.parent_hash,
                },
            )
        }),
{
    lemma_linked_so_far(view, ancestor, ancestor_number, chain, segment, i as nat);
    let fault = link_error(view, ancestor, ancestor_number, chain, segment, i);
    assert(segment_error(view, ancestor, ancestor_number, chain, segment, (i + 1) as nat) == fault);
    lemma_first_fault(
        view,
        ancestor,
        ancestor_number,
        chain,
        segment,
        (i + 1) as nat,
        chain.len(),
    );
}

proof fn lemma_linked_so_far(
    view: ChainView,
    ancestor: ShellHash,
    ancestor_number: u64,
    chain: Seq<ShellHash>,
    segment: Segment,
    n: nat,
)
    requires
        n <= chain.len(),
        forall|j: int|
            0 <= j < n ==> #[trigger] is_linked(view, ancestor, ancestor_number, chain, j),
    ensures
        segment_error(view, ancestor, ancestor_number, chain, segment, n) is None,
    decreases n,
{
    if n > 0 {
        lemma_linked_so_far(view, ancestor, ancestor_number, chain, segment, (n - 1) as nat);
        assert(is_linked(view, ancestor, ancestor_number, chain, n - 1));
        let number = view.blocks[chain[n - 1]].header.number;
        assert(number <= u64::MAX);
    }
}

/// Why a reorganization is refused: it goes below the finalized block, or starts at the finalized height
/// from another block than the one there; else one of its chains is not linked, the old one first; else
/// the ancestor's body or a world state that it needs is not there.
pub proof fn law_why_reorganizations_are_refused(
    view: ChainView,
    ancestor: ShellHash,
    ancestor_number: u64,
    old_chain: Seq<ShellHash>,
    new_chain: Seq<ShellHash>,
    finalized: u64,
)
    ensures
        ({
            let error = reorg_error(
                view,
                ancestor,
                ancestor_number,
                old_chain,
                new_chain,
                finalized,
            );
            let old_error = segment_error(
                view,
                ancestor,
                ancestor_number,
                old_chain,
                Segment::Old,
                old_chain.len(),
            );
            let new_error = segment_error(
                view,
                ancestor,
                ancestor_number,
                new_chain,
                Segment::New,
                new_chain.len(),
            );
            let fits = ancestor_number > finalized || finalized == 0 || (ancestor_number == finalized
                && view.canonical.contains_key(finalized) && view.canonical[finalized] == ancestor);
            let root = view.blocks[ancestor].header.state_root;
            &&& ancestor_number < finalized ==> error == Some(
                NodeError::ReorgPastFinalized { finalized, ancestor: ancestor_number },
            )
            &&& ancestor_number == finalized > 0 && !view.canonical.contains_key(finalized)
                ==> error == Some(NodeError::FinalizedMappingMissing { finalized })
            &&& ancestor_number == finalized > 0 && view.canonical.contains_key(finalized)
                && view.canonical[finalized] != ancestor ==> error == Some(
                NodeError::FinalizedAncestorMismatch { finalized },
            )
            &&& fits && old_error is Some ==> error == old_error
            &&& fits && old_error is None && new_error is Some ==> error == new_error
            &&& fits && old_error is None && new_error is None && !view.blocks.contains_key(ancestor)
                ==> error == Some(NodeError::AncestorMissing { hash: ancestor })
            &&& fits && old_error is None && new_error is None && view.blocks.contains_key(ancestor)
                && !view.state_roots.contains(root) ==> error == Some(
                NodeError::StateUnavailable { root },
            )
        }),
{
}

} // verus!
