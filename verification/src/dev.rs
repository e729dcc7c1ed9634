//! Development-mode state: the time of the next block, and snapshots to return to.

use vstd::prelude::*;

use crate::chain::{ChainStore, ChainTotals, ChainView, SignedTransaction, StoreOp};
use crate::error::NodeError;
use crate::primitives::ShellHash;
use crate::text;

verus! {

/// How many snapshots are held at most.
pub const MAX_DEV_SNAPSHOTS: usize = 128;

/// What a snapshot brings back.
#[derive(Debug)]
pub struct DevSnapshot {
    /// Hash of the head.
    pub head_hash: ShellHash,
    /// Height of the head.
    pub head_number: u64,
    /// Root of the world state.
    pub state_root: ShellHash,
    /// Transactions counted up to the head.
    pub total_tx_count: u128,
    /// Gas counted up to the head.
    pub total_gas_used: u128,
    /// Height up to which the chain is final.
    pub finalized_number: u64,
    /// Pending transactions.
    pub pending_txs: Vec<SignedTransaction>,
    /// The time of the next block, where it was set.
    pub next_block_timestamp: Option<u64>,
}

/// A snapshot as a mathematical value.
#[verifier::ext_equal]
pub struct SnapshotView {
    pub head_hash: ShellHash,
    pub head_number: u64,
    pub state_root: ShellHash,
    pub total_tx_count: u128,
    pub total_gas_used: u128,
    pub finalized_number: u64,
    pub pending_txs: Seq<SignedTransaction>,
    pub next_block_timestamp: Option<u64>,
}

impl View for DevSnapshot {
    type V = SnapshotView;

    open spec fn view(&self) -> SnapshotView {
        SnapshotView {
            head_hash: self.head_hash,
            head_number: self.head_number,
            state_root: self.state_root,
            total_tx_count: self.total_tx_count,
            total_gas_used: self.total_gas_used,
            finalized_number: self.finalized_number,
            pending_txs: self.pending_txs@,
            next_block_timestamp: self.next_block_timestamp,
        }
    }
}

/// Development-mode state as a mathematical value.
#[verifier::ext_equal]
pub struct DevView {
    /// The time of the next block, where it was set.
    pub next_block_timestamp: Option<u64>,
    /// The id of the next snapshot.
    pub next_snapshot_id: u64,
    /// The snapshots held, with their ids, oldest first.
    pub snapshots: Seq<(u64, SnapshotView)>,
}

impl DevView {
    /// Whether the ids of the snapshots rise and have all been given out, and there are no more
    /// snapshots than may be held.
    pub open spec fn wf(self) -> bool {
        &&& self.next_snapshot_id >= 1
        &&& self.snapshots.len() <= MAX_DEV_SNAPSHOTS
        &&& forall|i: int, j: int|
            0 <= i < j < self.snapshots.len() ==> (#[trigger] self.snapshots[i]).0
                < (#[trigger] self.snapshots[j]).0
        &&& forall|i: int|
            0 <= i < self.snapshots.len() ==> 1 <= (#[trigger] self.snapshots[i]).0
                < self.next_snapshot_id
    }

    /// Whether a snapshot is held under an id.
    pub open spec fn holds(self, id: u64) -> bool {
        exists|i: int| 0 <= i < self.snapshots.len() && (#[trigger] self.snapshots[i]).0 == id
    }

    /// The snapshot of an id.
    pub open spec fn snapshot(self, id: u64) -> SnapshotView {
        let i = choose|i: int| 0 <= i < self.snapshots.len() && (#[trigger] self.snapshots[i]).0 == id;
        self.snapshots[i].1
    }
}

/// Development-mode state.
#[derive(Debug)]
pub struct DevState {
    next_block_timestamp: Option<u64>,
    next_snapshot_id: u64,
    snapshots: Vec<(u64, DevSnapshot)>,
}

impl View for DevState {
    type V = DevView;

    closed spec fn view(&self) -> DevView {
        DevView {
            next_block_timestamp: self.next_block_timestamp,
            next_snapshot_id: self.next_snapshot_id,
            snapshots: Seq::new(
                self.snapshots@.len(),
                |i: int| (self.snapshots@[i].0, self.snapshots@[i].1@),
            ),
        }
    }
}

/// The value of some hexadecimal digits.
pub open spec fn digits_value(digits: Seq<char>) -> Option<nat>
    decreases digits.len(),
{
    if digits.len() == 0 {
        Some(0)
    } else {
        match (digits_value(digits.drop_last()), text::digit_value(digits.last())) {
            (Some(high), Some(low)) => Some(16 * high + low),
            _ => None,
        }
    }
}

/// The number that the text of a snapshot id stands for: `0x`, then one to sixteen characters that
/// are hexadecimal digits, of which the first may be a plus sign in front of the others.
pub open spec fn snapshot_id(id: Seq<char>) -> Option<u64> {
    let body = id.skip(2);
    let digits = if body.len() > 0 && body[0] == '+' {
        body.skip(1)
    } else {
        body
    };
    if id.len() < 3 || id[0] != '0' || id[1] != 'x' || body.len() > 16 || digits.len() == 0 {
        None
    } else {
        match digits_value(digits) {
            Some(n) => Some(n as u64),
            None => None,
        }
    }
}

/// The most that `n` digits can stand for, and one more.
pub open spec fn sixteen_to(n: nat) -> nat
    decreases n,
{
    if n == 0 {
        1
    } else {
        16 * sixteen_to((n - 1) as nat)
    }
}

proof fn lemma_digits_bound(digits: Seq<char>)
    ensures
        digits_value(digits) matches Some(n) ==> n < sixteen_to(digits.len()),
    decreases digits.len(),
{
    if digits.len() > 0 {
        lemma_digits_bound(digits.drop_last());
    }
}

proof fn lemma_sixteen_to(n: nat, m: nat)
    requires
        n <= m,
    ensures
        sixteen_to(n) <= sixteen_to(m),
    decreases m,
{
    if n < m {
        lemma_sixteen_to(n, (m - 1) as nat);
    }
}

proof fn lemma_sixteen_to_sixteen()
    ensures
        sixteen_to(16) == 0x1_0000_0000_0000_0000,
{
    reveal_with_fuel(sixteen_to, 17);
}

/// A faulty digit spoils every longer text.
proof fn lemma_fault_stays(digits: Seq<char>, n: int)
    requires
        0 <= n <= digits.len(),
        digits_value(digits.take(n)) is None,
    ensures
        digits_value(digits) is None,
    decreases digits.len() - n,
{
    if n < digits.len() {
        assert(digits.take(n + 1).drop_last() =~= digits.take(n));
        lemma_fault_stays(digits, n + 1);
    } else {
        assert(digits.take(n) =~= digits);
    }
}

/// Parses the text of a snapshot id.
pub fn parse_snapshot_id(id: &str) -> (r: Option<u64>)
    ensures
        r == snapshot_id(id@),
{
    let len: usize = id.unicode_len();
    if len < 3 || len > 18 {
        return None;
    }
    if id.get_char(0) != '0' || id.get_char(1) != 'x' {
        return None;
    }
    let ghost body = id@.skip(2);
    let start: usize = if id.get_char(2) == '+' {
        3
    } else {
        2
    };
    let ghost digits = id@.skip(start as int);
    assert(digits =~= if body[0] == '+' {
        body.skip(1)
    } else {
        body
    });
    if start == len {
        return None;
    }
    let mut value: u64 = 0;
    let mut i: usize = start;
    assert(digits.take(0) =~= Seq::empty());
    while i < len
        invariant
            2 <= start <= i <= len <= 18,
            len == id@.len(),
            digits == id@.skip(start as int),
            body == id@.skip(2),
            digits == (if body[0] == '+' {
                body.skip(1)
            } else {
                body
            }),
            digits_value(digits.take(i - start)) == Some(value as nat),
        decreases len - i,
    {
        proof {
            let shorter = digits.take(i - start);
            let longer = digits.take(i - start + 1);
            assert(longer.drop_last() =~= shorter);
            assert(longer.last() == id@[i as int]);
            lemma_digits_bound(shorter);
            lemma_sixteen_to(shorter.len(), 15);
            lemma_sixteen_to_sixteen();
            assert(sixteen_to(16) == 16 * sixteen_to(15));
        }
        match text::read_digit(id.get_char(i)) {
            Some(d) => {
                value = 16 * value + d;
            },
            None => {
                proof {
                    lemma_fault_stays(digits, i - start + 1);
                }
                return None;
            },
        }
        i += 1;
    }
    assert(digits.take(i - start) =~= digits);
    Some(value)
}

/// The changes that take the blocks of the `k` heights above a height out of the canonical chain.
pub open spec fn unwind_ops(view: ChainView, head_number: u64, k: nat) -> Seq<StoreOp>
    decreases k,
{
    if k == 0 {
        Seq::empty()
    } else {
        let number = (head_number + k) as u64;
        let before = unwind_ops(view, head_number, (k - 1) as nat);
        match view.block_at(number) {
            Some(block) => before.push(StoreOp::DeleteTransactionIndexes(block.hash)).push(
                StoreOp::DeleteCanonical(number),
            ),
            None => before.push(StoreOp::DeleteCanonical(number)),
        }
    }
}

/// The changes that bring a chain back to a snapshot, but for the world state.
pub open spec fn revert_ops(view: ChainView, snapshot: SnapshotView) -> Seq<StoreOp> {
    let current = view.head_block()->0.header.number;
    let above = if current > snapshot.head_number {
        (current - snapshot.head_number) as nat
    } else {
        0
    };
    unwind_ops(view, snapshot.head_number, above).push(StoreOp::SetHead(snapshot.head_hash)).push(
        StoreOp::SetTotals(
            ChainTotals {
                head: snapshot.head_number,
                transactions: snapshot.total_tx_count,
                gas_used: snapshot.total_gas_used,
            },
        ),
    ).push(StoreOp::SetFinalized(snapshot.finalized_number))
}

/// What is left to do once the chain is back at a snapshot.
#[derive(Debug)]
pub struct Reverted {
    /// Height up to which the chain is final.
    pub finalized_number: u64,
    /// Hash of the block there, or zero where it is not known.
    pub finalized_hash: ShellHash,
    /// The transactions that the pool is to hold again.
    pub pending_txs: Vec<SignedTransaction>,
}

/// The hash of the canonical block of a finalized height, or zero where there is none.
pub open spec fn finalized_hash_of(view: ChainView, finalized_number: u64) -> ShellHash {
    if finalized_number == 0 {
        crate::primitives::zero_hash()
    } else {
        match view.block_at(finalized_number) {
            Some(block) => block.hash,
            None => crate::primitives::zero_hash(),
        }
    }
}

fn copy_txs(txs: &Vec<SignedTransaction>) -> (r: Vec<SignedTransaction>)
    ensures
        r@ == txs@,
{
    let mut out: Vec<SignedTransaction> = Vec::new();
    let mut i: usize = 0;
    while i < txs.len()
        invariant
            i <= txs@.len(),
            out@ == txs@.take(i as int),
        decreases txs.len() - i,
    {
        out.push(txs[i]);
        i += 1;
        assert(out@ =~= txs@.take(i as int));
    }
    assert(out@ =~= txs@);
    out
}

impl DevState {
    #[verifier::type_invariant]
    spec fn inv(self) -> bool {
        self@.wf()
    }

    /// A state without snapshots; the first one gets the id 1.
    pub fn new() -> (r: Self)
        ensures
            r@ == (DevView {
                next_block_timestamp: None,
                next_snapshot_id: 1,
                snapshots: Seq::empty(),
            }),
            r@.wf(),
    {
        let r = DevState { next_block_timestamp: None, next_snapshot_id: 1, snapshots: Vec::new() };
        assert(r@.snapshots =~= Seq::empty());
        r
    }

    /// Sets the time of the next block.
    pub fn set_next_block_timestamp(&mut self, timestamp: u64)
        ensures
            final(self)@ == (DevView { next_block_timestamp: Some(timestamp), ..old(self)@ }),
    {
        proof {
            use_type_invariant(&*self);
        }
        self.next_block_timestamp = Some(timestamp);
        assert(self@.snapshots =~= old(self)@.snapshots);
    }

    /// The time of the block that is being made: the one that was set for it, which then no longer
    /// applies, or the present; and in any case after its parent's.
    pub fn current_block_timestamp(&mut self, now: u64, parent_timestamp: u64) -> (r: u64)
        ensures
            final(self)@ == (DevView { next_block_timestamp: None, ..old(self)@ }),
            ({
                let chosen = match old(self)@.next_block_timestamp {
                    Some(next) => next,
                    None => now,
                };
                let after_parent = if parent_timestamp == u64::MAX {
                    u64::MAX as int
                } else {
                    parent_timestamp + 1
                };
                r == if chosen >= after_parent {
                    chosen as int
                } else {
                    after_parent
                }
            }),
            parent_timestamp < u64::MAX ==> r > parent_timestamp,
    {
        proof {
            use_type_invariant(&*self);
        }
        let chosen: u64 = match self.next_block_timestamp {
            Some(next) => next,
            None => now,
        };
        self.next_block_timestamp = None;
        assert(self@.snapshots =~= old(self)@.snapshots);
        let after_parent: u64 = parent_timestamp.saturating_add(1);
        if chosen >= after_parent {
            chosen
        } else {
            after_parent
        }
    }

    /// Takes a snapshot of the head, and returns its id.
    ///
    /// `totals` are the counters at the head, `pending_txs` the transactions in the pool.
    pub fn snapshot_inner(
        &mut self,
        chain: &ChainStore,
        total_tx_count: u128,
        total_gas_used: u128,
        pending_txs: Vec<SignedTransaction>,
    ) -> (r: Result<String, NodeError>)
        ensures
            ({
                let before = old(self)@;
                if before.snapshots.len() >= MAX_DEV_SNAPSHOTS {
                    r == Err::<String, NodeError>(NodeError::SnapshotLimit) && final(self)@ == before
                } else {
                    match chain@.head_block() {
                        None => r == Err::<String, NodeError>(NodeError::NoGenesis) && final(self)@
                            == before,
                        Some(head) => if before.next_snapshot_id == u64::MAX {
                            r == Err::<String, NodeError>(NodeError::SnapshotIdsExhausted) && final(
                                self)@ == before
                        } else {
                            &&& r matches Ok(id) && id@ == "0x"@ + text::hexadecimal(
                                before.next_snapshot_id as nat,
                            )
                            &&& final(self)@ == (DevView {
                                next_block_timestamp: before.next_block_timestamp,
                                next_snapshot_id: (before.next_snapshot_id + 1) as u64,
                                snapshots: before.snapshots.push(
                                    (
                                        before.next_snapshot_id,
                                        SnapshotView {
                                            head_hash: head.hash,
                                            head_number: head.header.number,
                                            state_root: head.header.state_root,
                                            total_tx_count,
                                            total_gas_used,
                                            finalized_number: match chain@.finalized {
                                                Some(n) => n,
                                                None => 0,
                                            },
                                            pending_txs: pending_txs@,
                                            next_block_timestamp: before.next_block_timestamp,
                                        },
                                    ),
                                ),
                            })
                        },
                    }
                }
            }),
            final(self)@.wf(),
    {
        let ghost before = self@;
        proof {
            use_type_invariant(&*self);
        }
        if self.snapshots.len() >= MAX_DEV_SNAPSHOTS {
            return Err(NodeError::SnapshotLimit);
        }
        match chain.get_head_block() {
            None => Err(NodeError::NoGenesis),
            Some(head) => {
                if self.next_snapshot_id == u64::MAX {
                    return Err(NodeError::SnapshotIdsExhausted);
                }
                let id: u64 = self.next_snapshot_id;
                let finalized_number: u64 = match chain.get_finalized_number() {
                    Some(n) => n,
                    None => 0,
                };
                let mut snapshots: Vec<(u64, DevSnapshot)> = Vec::new();
                std::mem::swap(&mut snapshots, &mut self.snapshots);
                snapshots.push(
                    (
                        id,
                        DevSnapshot {
                            head_hash: head.hash,
                            head_number: head.header.number,
                            state_root: head.header.state_root,
                            total_tx_count,
                            total_gas_used,
                            finalized_number,
                            pending_txs,
                            next_block_timestamp: self.next_block_timestamp,
                        },
                    ),
                );
                self.next_snapshot_id = id + 1;
                let ghost pushed = Seq::new(
                    snapshots@.len(),
                    |i: int| (snapshots@[i].0, snapshots@[i].1@),
                );
                assert(pushed =~= before.snapshots.push(pushed.last()));
                assert forall|i: int| 0 <= i < before.snapshots.len() implies (#[trigger] pushed[i])
                    == before.snapshots[i] by {}
                self.snapshots = snapshots;
                let mut name = "0x".to_owned();
                text::push_hexadecimal(&mut name, id);
                Ok(name)
            },
        }
    }

    /// Returns to a snapshot.
    ///
    /// `Ok(None)` says that the text is no id or that no snapshot has it. Blocks above the
    /// snapshot's head leave the canonical chain, and with them the index entries of their
    /// transactions; head, counters, finality and world state become those of the snapshot. The
    /// snapshot and all later ones are used up. Where the world state can no longer be opened, the
    /// chain is back at the snapshot without it, and the snapshots stay.
    pub fn revert_inner(&mut self, chain: &mut ChainStore, id: &str) -> (r: Result<
        Option<Reverted>,
        NodeError,
    >)
        ensures
            ({
                let dev = old(self)@;
                let view = old(chain)@;
                let found = snapshot_id(id@) is Some && dev.holds(snapshot_id(id@)->0);
                &&& !found ==> r == Ok::<Option<Reverted>, NodeError>(None) && final(self)@ == dev
                    && final(chain)@ == view
                &&& found && view.head_block() is None ==> r == Err::<Option<Reverted>, NodeError>(
                    NodeError::NoGenesis,
                ) && final(self)@ == dev && final(chain)@ == view
                &&& found && view.head_block() is Some ==> {
                    let number = snapshot_id(id@)->0;
                    let snapshot = dev.snapshot(number);
                    let back = view.apply_all(revert_ops(view, snapshot));
                    if !view.state_roots.contains(snapshot.state_root) {
                        &&& r == Err::<Option<Reverted>, NodeError>(
                            NodeError::StateUnavailable { root: snapshot.state_root },
                        )
                        &&& final(chain)@ == back
                        &&& final(self)@ == dev
                    } else {
                        &&& final(chain)@ == back.apply(StoreOp::SetWorldRoot(snapshot.state_root))
                        &&& final(self)@.next_block_timestamp == snapshot.next_block_timestamp
                        &&& final(self)@.next_snapshot_id == dev.next_snapshot_id
                        &&& final(self)@.snapshots == dev.snapshots.filter(
                            |s: (u64, SnapshotView)| s.0 < number,
                        )
                        &&& r matches Ok(Some(reverted))
                        &&& reverted.finalized_number == snapshot.finalized_number
                        &&& reverted.finalized_hash == finalized_hash_of(
                            back,
                            snapshot.finalized_number,
                        )
                        &&& reverted.pending_txs@ == snapshot.pending_txs
                    }
                }
            }),
            final(self)@.wf(),
    {
        let ghost dev = self@;
        let ghost view = chain@;
        proof {
            use_type_invariant(&*self);
        }
        let number: u64 = match parse_snapshot_id(id) {
            Some(number) => number,
            None => {
                return Ok(None);
            },
        };
        let mut i: usize = 0;
        while i < self.snapshots.len() && self.snapshots[i].0 != number
            invariant
                i <= self.snapshots@.len(),
                self@ == dev,
                forall|j: int| 0 <= j < i ==> (#[trigger] dev.snapshots[j]).0 != number,
            decreases self.snapshots.len() - i,
        {
            assert(dev.snapshots[i as int].0 == self.snapshots@[i as int].0);
            i += 1;
        }
        if i == self.snapshots.len() {
            return Ok(None);
        }
        assert(dev.snapshots[i as int].0 == number);
        let ghost snapshot = dev.snapshots[i as int].1;
        proof {
            let k = choose|k: int| 0 <= k < dev.snapshots.len() && (#[trigger] dev.snapshots[k]).0 == number;
            assert(k == i);
        }
        let current: u64 = match chain.get_head_block() {
            Some(head) => head.header.number,
            None => {
                return Err(NodeError::NoGenesis);
            },
        };
        let head_number: u64 = self.snapshots[i].1.head_number;
        let finalized_number: u64 = self.snapshots[i].1.finalized_number;
        let state_root: ShellHash = self.snapshots[i].1.state_root;
        let mut ops = Self::list_unwind(&*chain, head_number, current);
        ops.push(StoreOp::SetHead(self.snapshots[i].1.head_hash));
        ops.push(
            StoreOp::SetTotals(
                ChainTotals {
                    head: head_number,
                    transactions: self.snapshots[i].1.total_tx_count,
                    gas_used: self.snapshots[i].1.total_gas_used,
                },
            ),
        );
        ops.push(StoreOp::SetFinalized(finalized_number));
        assert(ops@ =~= revert_ops(view, snapshot));
        proof {
            lemma_states_kept(view, ops@);
        }
        chain.apply_all(&ops);
        if !chain.has_state(&state_root) {
            return Err(NodeError::StateUnavailable { root: state_root });
        }
        let ghost back = chain@;
        chain.apply(StoreOp::SetWorldRoot(state_root));
        let finalized_hash: ShellHash = if finalized_number == 0 {
            ShellHash::zero()
        } else {
            match chain.get_block_by_number(finalized_number) {
                Some(block) => block.hash,
                None => ShellHash::zero(),
            }
        };
        assert(chain@.block_at(finalized_number) == back.block_at(finalized_number));
        let pending_txs = copy_txs(&self.snapshots[i].1.pending_txs);
        let next_block_timestamp = self.snapshots[i].1.next_block_timestamp;
        self.next_block_timestamp = next_block_timestamp;
        let mut snapshots: Vec<(u64, DevSnapshot)> = Vec::new();
        std::mem::swap(&mut snapshots, &mut self.snapshots);
        snapshots.truncate(i);
        proof {
            lemma_filter_prefix(dev.snapshots, number, i as int);
            let kept = Seq::new(snapshots@.len(), |j: int| (snapshots@[j].0, snapshots@[j].1@));
            assert(kept =~= dev.snapshots.take(i as int));
        }
        self.snapshots = snapshots;
        Ok(Some(Reverted { finalized_number, finalized_hash, pending_txs }))
    }

    fn list_unwind(chain: &ChainStore, head_number: u64, current: u64) -> (r: Vec<StoreOp>)
        ensures
            r@ == unwind_ops(
                chain@,
                head_number,
                if current > head_number {
                    (current - head_number) as nat
                } else {
                    0
                },
            ),
    {
        let mut ops: Vec<StoreOp> = Vec::new();
        let mut number: u64 = head_number;
        while number < current
            invariant
                head_number <= number,
                number <= current || number == head_number,
                ops@ == unwind_ops(chain@, head_number, (number - head_number) as nat),
            decreases current - number,
        {
            number += 1;
            match chain.get_block_by_number(number) {
                Some(block) => {
                    ops.push(StoreOp::DeleteTransactionIndexes(block.hash));
                },
                None => {},
            }
            ops.push(StoreOp::DeleteCanonical(number));
        }
        ops
    }
}

/// No change to the chain makes a state available or unavailable.
proof fn lemma_states_kept(view: ChainView, ops: Seq<StoreOp>)
    ensures
        view.apply_all(ops).state_roots == view.state_roots,
    decreases ops.len(),
{
    if ops.len() > 0 {
        lemma_states_kept(view, ops.drop_last());
    }
}

/// In a list with rising ids, the entries with an id below the one at `i` are the first `i`.
proof fn lemma_filter_prefix(snapshots: Seq<(u64, SnapshotView)>, number: u64, i: int)
    requires
        0 <= i < snapshots.len(),
        snapshots[i].0 == number,
        forall|a: int, b: int|
            0 <= a < b < snapshots.len() ==> (#[trigger] snapshots[a]).0 < (#[trigger] snapshots[b]).0,
    ensures
        snapshots.filter(|s: (u64, SnapshotView)| s.0 < number) == snapshots.take(i),
{
    let below = |s: (u64, SnapshotView)| s.0 < number;
    lemma_filter_prefix_at(snapshots, number, i, snapshots.len());
    assert(snapshots.take(snapshots.len() as int) =~= snapshots);
}

proof fn lemma_filter_prefix_at(snapshots: Seq<(u64, SnapshotView)>, number: u64, i: int, n: nat)
    requires
        0 <= i < snapshots.len(),
        n <= snapshots.len(),
        snapshots[i].0 == number,
        forall|a: int, b: int|
            0 <= a < b < snapshots.len() ==> (#[trigger] snapshots[a]).0 < (#[trigger] snapshots[b]).0,
    ensures
        snapshots.take(n as int).filter(|s: (u64, SnapshotView)| s.0 < number) == snapshots.take(
            if n < i {
                n as int
            } else {
                i
            },
        ),
    decreases n,
{
    reveal(Seq::filter);
    let part = snapshots.take(n as int);
    if n == 0 {
        assert(snapshots.take(0) =~= Seq::empty());
    } else {
        lemma_filter_prefix_at(snapshots, number, i, (n - 1) as nat);
        assert(part.drop_last() =~= snapshots.take(n - 1));
        if n - 1 < i {
            assert(snapshots[n - 1].0 < snapshots[i].0);
            assert(snapshots.take(n - 1).push(snapshots[n - 1]) =~= snapshots.take(n as int));
        } else if n - 1 > i {
            assert(snapshots[i].0 < snapshots[n - 1].0);
        }
    }
}

proof fn lemma_hexadecimal_value(n: nat)
    ensures
        digits_value(text::hexadecimal(n)) == Some(n),
        text::hexadecimal(n).len() >= 1,
        text::hexadecimal(n)[0] != '+',
    decreases n,
{
    let shown = text::hexadecimal(n);
    if n < 16 {
        assert(shown.drop_last() =~= Seq::empty());
        assert(shown.last() == text::digit_char(n));
        reveal_with_fuel(digits_value, 2);
    } else {
        lemma_hexadecimal_value(n / 16);
        assert(shown.drop_last() =~= text::hexadecimal(n / 16));
        assert(shown.last() == text::digit_char(n % 16));
        assert(text::digit_value(text::digit_char(n % 16)) == Some(n % 16));
    }
}

proof fn lemma_hexadecimal_len(n: nat, k: nat)
    requires
        n < sixteen_to(k),
        k >= 1,
    ensures
        text::hexadecimal(n).len() <= k,
    decreases k,
{
    if n >= 16 {
        if k == 1 {
            reveal_with_fuel(sixteen_to, 2);
        } else {
            assert(n / 16 < sixteen_to((k - 1) as nat)) by (nonlinear_arith)
                requires
                    n < 16 * sixteen_to((k - 1) as nat),
            ;
            lemma_hexadecimal_len(n / 16, (k - 1) as nat);
        }
    }
}

/// The id that a snapshot was given out under is read back as that id.
pub proof fn law_snapshot_id_round_trip(id: u64)
    ensures
        snapshot_id("0x"@ + text::hexadecimal(id as nat)) == Some(id),
{
    let shown = text::hexadecimal(id as nat);
    let name = "0x"@ + shown;
    reveal_strlit("0x");
    lemma_hexadecimal_value(id as nat);
    lemma_sixteen_to_sixteen();
    lemma_hexadecimal_len(id as nat, 16);
    assert(name.skip(2) =~= shown);
}

proof fn lemma_unwind_effect(view: ChainView, base: ChainView, head_number: u64, k: nat)
    requires
        head_number + k <= u64::MAX,
    ensures
        ({
            let after = view.apply_all(unwind_ops(base, head_number, k));
            &&& after == (ChainView {
                canonical: after.canonical,
                tx_index: after.tx_index,
                ..view
            })
            &&& after.canonical == view.canonical.remove_keys(
                Set::new(|n: u64| head_number < n <= head_number + k),
            )
        }),
    decreases k,
{
    let ops = unwind_ops(base, head_number, k);
    let gone = |k: nat| Set::new(|n: u64| head_number < n <= head_number + k);
    if k == 0 {
        assert(view.canonical.remove_keys(gone(0)) =~= view.canonical);
    } else {
        lemma_unwind_effect(view, base, head_number, (k - 1) as nat);
        let number = (head_number + k) as u64;
        let before = unwind_ops(base, head_number, (k - 1) as nat);
        let mid = view.apply_all(before);
        let delete = StoreOp::DeleteCanonical(number);
        match base.block_at(number) {
            Some(block) => {
                let index = StoreOp::DeleteTransactionIndexes(block.hash);
                assert(ops.drop_last() =~= before.push(index));
                assert(before.push(index).drop_last() =~= before);
                assert(view.apply_all(before.push(index)) == mid.apply(index));
                assert(view.apply_all(ops) == mid.apply(index).apply(delete));
            },
            None => {
                assert(ops.drop_last() =~= before);
                assert(view.apply_all(ops) == mid.apply(delete));
            },
        }
        assert(view.canonical.remove_keys(gone((k - 1) as nat)).remove(number)
            =~= view.canonical.remove_keys(gone(k)));
    }
}

/// Returning to a snapshot takes exactly the blocks above its head out of the canonical chain, and
/// makes head, counters and finality those of the snapshot. Known blocks stay known.
pub proof fn law_revert_returns_to_the_snapshot(view: ChainView, snapshot: SnapshotView)
    requires
        view.head_block() is Some,
    ensures
        ({
            let current = view.head_block()->0.header.number;
            let back = view.apply_all(revert_ops(view, snapshot));
            &&& back.head == Some(snapshot.head_hash)
            &&& back.finalized == Some(snapshot.finalized_number)
            &&& back.totals == Some(
                ChainTotals {
                    head: snapshot.head_number,
                    transactions: snapshot.total_tx_count,
                    gas_used: snapshot.total_gas_used,
                },
            )
            &&& back.blocks == view.blocks
            &&& back.canonical == view.canonical.remove_keys(
                Set::new(|n: u64| snapshot.head_number < n <= current),
            )
        }),
{
    let current = view.head_block()->0.header.number;
    let above = if current > snapshot.head_number {
        (current - snapshot.head_number) as nat
    } else {
        0
    };
    let unwind = unwind_ops(view, snapshot.head_number, above);
    lemma_unwind_effect(view, view, snapshot.head_number, above);
    let ops = revert_ops(view, snapshot);
    let two = ops.drop_last();
    let one = two.drop_last();
    assert(one.drop_last() =~= unwind);
    assert(Set::new(|n: u64| snapshot.head_number < n <= snapshot.head_number + above) =~= Set::new(
        |n: u64| snapshot.head_number < n <= current,
    ));
    let v0 = view.apply_all(unwind);
    assert(view.apply_all(one) == v0.apply(one.last()));
    assert(view.apply_all(two) == view.apply_all(one).apply(two.last()));
    assert(view.apply_all(ops) == view.apply_all(two).apply(ops.last()));
}

/// Some characters stand for a number exactly if each of them is a hexadecimal digit, and a digit more
/// makes the number sixteen times as large and adds its own value; a zero in front changes nothing.
pub proof fn law_value_of_digits(digits: Seq<char>, next: char)
    ensures
        digits_value(digits) is Some <==> forall|i: int|
            0 <= i < digits.len() ==> text::digit_value(#[trigger] digits[i]) is Some,
        digits_value(digits) is Some && text::digit_value(next) is Some ==> digits_value(
            digits.push(next),
        ) == Some((digits_value(digits)->0 * 16 + text::digit_value(next)->0) as nat),
        digits_value(seq!['0'] + digits) == digits_value(digits),
        digits_value(Seq::empty()) == Some(0nat),
    decreases digits.len(),
{
    assert(digits.push(next).drop_last() =~= digits);
    if digits.len() > 0 {
        let init = digits.drop_last();
        law_value_of_digits(init, next);
        assert((seq!['0'] + digits).drop_last() =~= seq!['0'] + init);
        assert((seq!['0'] + digits).last() == digits.last());
        if digits_value(digits) is Some {
            assert forall|i: int| 0 <= i < digits.len() implies text::digit_value(
                #[trigger] digits[i],
            ) is Some by {
                if i < init.len() {
                    assert(init[i] == digits[i]);
                }
            }
        }
        if forall|i: int|
            0 <= i < digits.len() ==> text::digit_value(#[trigger] digits[i]) is Some {
            assert forall|i: int| 0 <= i < init.len() implies text::digit_value(
                #[trigger] init[i],
            ) is Some by {
                assert(init[i] == digits[i]);
            }
            assert(text::digit_value(digits[digits.len() - 1]) is Some);
        }
    } else {
        reveal_with_fuel(digits_value, 2);
        assert((seq!['0'] + digits).drop_last() =~= Seq::empty());
        assert((seq!['0'] + digits).last() == '0');
    }
}

/// A text is the id of a snapshot exactly if it is `0x` and then at most sixteen characters, which are
/// hexadecimal digits, at least one, but for a plus sign that may come first.
pub proof fn law_texts_that_are_ids(id: Seq<char>)
    ensures
        snapshot_id(id) is Some <==> {
            let first: int = if id.len() > 2 && id[2] == '+' {
                3
            } else {
                2
            };
            &&& id.len() > first
            &&& id.len() <= 18
            &&& id[0] == '0'
            &&& id[1] == 'x'
            &&& forall|i: int|
                first <= i < id.len() ==> text::digit_value(#[trigger] id[i]) is Some
        },
{
    if id.len() >= 3 {
        let body = id.skip(2);
        assert(body[0] == id[2]);
        let first: int = if id[2] == '+' {
            3
        } else {
            2
        };
        let digits = if body[0] == '+' {
            body.skip(1)
        } else {
            body
        };
        assert(digits =~= id.skip(first));
        law_value_of_digits(digits, '0');
        if digits_value(digits) is Some {
            assert forall|i: int| first <= i < id.len() implies text::digit_value(
                #[trigger] id[i],
            ) is Some by {
                assert(digits[i - first] == id[i]);
            }
        }
        if forall|i: int| first <= i < id.len() ==> text::digit_value(#[trigger] id[i]) is Some {
            assert forall|i: int| 0 <= i < digits.len() implies text::digit_value(
                #[trigger] digits[i],
            ) is Some by {
                assert(digits[i] == id[first + i]);
            }
        }
    }
}

proof fn lemma_unwound_index(view: ChainView, base: ChainView, head_number: u64, k: nat, hash: ShellHash)
    requires
        head_number + k <= u64::MAX,
        view.blocks == base.blocks,
    ensures
        ({
            let after = view.apply_all(unwind_ops(base, head_number, k));
            &&& after.blocks == view.blocks
            &&& after.tx_index.contains_key(hash) ==> view.tx_index.contains_key(hash)
                && after.tx_index[hash] == view.tx_index[hash]
            &&& (forall|n: u64|
                head_number < n <= head_number + k ==> !#[trigger] unwinds(base, n, hash)) ==> (
            after.tx_index.contains_key(hash) <==> view.tx_index.contains_key(hash))
            &&& (exists|n: u64| head_number < n <= head_number + k && #[trigger] unwinds(base, n, hash))
                ==> !after.tx_index.contains_key(hash)
        }),
    decreases k,
{
    if k > 0 {
        lemma_unwound_index(view, base, head_number, (k - 1) as nat, hash);
        let ops = unwind_ops(base, head_number, k);
        let number = (head_number + k) as u64;
        let before = unwind_ops(base, head_number, (k - 1) as nat);
        let mid = view.apply_all(before);
        let delete = StoreOp::DeleteCanonical(number);
        match base.block_at(number) {
            Some(block) => {
                let index = StoreOp::DeleteTransactionIndexes(block.hash);
                assert(ops.drop_last() =~= before.push(index));
                assert(before.push(index).drop_last() =~= before);
                assert(view.apply_all(before.push(index)) == mid.apply(index));
                assert(view.apply_all(ops) == mid.apply(index).apply(delete));
                assert(unwinds(base, number, hash) <==> base.blocks.contains_key(block.hash)
                    && crate::chain::hashes_of(base.blocks[block.hash].transactions).contains(hash));
            },
            None => {
                assert(ops.drop_last() =~= before);
                assert(view.apply_all(ops) == mid.apply(delete));
                assert(!unwinds(base, number, hash));
            },
        }
    }
}

/// Whether taking the block of a height out of the canonical chain takes a transaction out of the
/// index: the canonical block of the height is known, and the block of its hash holds the transaction.
pub open spec fn unwinds(view: ChainView, number: u64, hash: ShellHash) -> bool {
    let block = view.blocks[view.canonical[number]];
    &&& view.canonical.contains_key(number)
    &&& view.blocks.contains_key(view.canonical[number])
    &&& view.blocks.contains_key(block.hash)
    &&& exists|i: int|
        0 <= i < view.blocks[block.hash].transactions.len() && (
        #[trigger] view.blocks[block.hash].transactions[i]).hash == hash
}

/// Returning to a snapshot takes exactly the transactions of the canonical blocks above its head out of
/// the index; every other transaction is found where it was.
pub proof fn law_revert_unindexes_the_blocks_above(
    view: ChainView,
    snapshot: SnapshotView,
    hash: ShellHash,
)
    requires
        view.head_block() is Some,
    ensures
        ({
            let current = view.head_block()->0.header.number;
            let back = view.apply_all(revert_ops(view, snapshot));
            &&& back.tx_index.contains_key(hash) <==> view.tx_index.contains_key(hash) && !(exists|
                n: u64,
            |
                snapshot.head_number < n <= current && #[trigger] unwinds(view, n, hash))
            &&& back.tx_index.contains_key(hash) ==> back.tx_index[hash] == view.tx_index[hash]
        }),
{
    let current = view.head_block()->0.header.number;
    let above = if current > snapshot.head_number {
        (current - snapshot.head_number) as nat
    } else {
        0
    };
    let unwind = unwind_ops(view, snapshot.head_number, above);
    lemma_unwound_index(view, view, snapshot.head_number, above, hash);
    let ops = revert_ops(view, snapshot);
    let two = ops.drop_last();
    let one = two.drop_last();
    assert(one.drop_last() =~= unwind);
    let v0 = view.apply_all(unwind);
    assert(view.apply_all(one) == v0.apply(one.last()));
    assert(view.apply_all(two) == view.apply_all(one).apply(two.last()));
    assert(view.apply_all(ops) == view.apply_all(two).apply(ops.last()));
    if exists|n: u64| snapshot.head_number < n <= current && #[trigger] unwinds(view, n, hash) {
        let n = choose|n: u64|
            snapshot.head_number < n <= current && #[trigger] unwinds(view, n, hash);
        assert(snapshot.head_number < n <= snapshot.head_number + above);
        assert(unwinds(view, n, hash));
    }
}

/// The hash of the finalized block after a return is that of the canonical block there, and zero for
/// the genesis block or where the block is not known.
pub proof fn law_finalized_hash_after_a_return(view: ChainView, number: u64)
    ensures
        ({
            let hash = finalized_hash_of(view, number);
            let known = number > 0 && view.canonical.contains_key(number)
                && view.blocks.contains_key(view.canonical[number]);
            &&& known ==> hash == view.blocks[view.canonical[number]].hash
            &&& !known ==> forall|k: int| 0 <= k < 32 ==> #[trigger] hash.bytes[k] == 0
        }),
{
}

/// A development block is later than its parent, and otherwise at the chosen moment or, where none is
/// chosen, at the present one; a choice holds for one block.
pub proof fn law_time_of_a_development_block(
    dev: &mut DevState,
    now: u64,
    parent: u64,
    time: u64,
)
    requires
        call_ensures(DevState::current_block_timestamp, (dev, now, parent), time),
    ensures
        parent < u64::MAX ==> time > parent,
        old(dev)@.next_block_timestamp matches Some(next) ==> time >= next && (next > parent ==> time
            == next),
        old(dev)@.next_block_timestamp is None ==> time >= now && (now > parent ==> time == now),
        old(dev)@.next_block_timestamp matches Some(next) ==> (next <= parent < u64::MAX ==> time
            == parent + 1),
        old(dev)@.next_block_timestamp is None ==> (now <= parent < u64::MAX ==> time == parent + 1),
        final(dev)@.next_block_timestamp is None,
        final(dev)@.snapshots == old(dev)@.snapshots,
        final(dev)@.next_snapshot_id == old(dev)@.next_snapshot_id,
{
}

/// A snapshot is taken unless there are 128 already, there is no head, or no id is left, and it is held
/// under its id, which is read back from the text that is handed out; those before it stay.
pub proof fn law_a_snapshot_is_held(
    dev: &mut DevState,
    chain: ChainStore,
    total_tx_count: u128,
    total_gas_used: u128,
    pending_txs: Vec<SignedTransaction>,
    taken: Result<String, NodeError>,
    i: int,
)
    requires
        call_ensures(
            DevState::snapshot_inner,
            (dev, &chain, total_tx_count, total_gas_used, pending_txs),
            taken,
        ),
        old(dev)@.wf(),
    ensures
        ({
            let before = old(dev)@;
            let after = final(dev)@;
            let count = before.snapshots.len();
            let (id, held) = after.snapshots[count as int];
            &&& taken is Ok <==> count < 128 && chain@.head_block() is Some
                && before.next_snapshot_id < u64::MAX
            &&& taken is Err ==> after == before
            &&& taken matches Ok(name) ==> {
                &&& snapshot_id(name@) == Some(id)
                &&& after.snapshots.len() == count + 1
                &&& 0 <= i < count ==> after.snapshots[i] == before.snapshots[i] && after.snapshots[i].0
                    < id
                &&& held.head_hash == chain@.head_block()->0.hash
                &&& held.head_number == chain@.head_block()->0.header.number
                &&& held.state_root == chain@.head_block()->0.header.state_root
                &&& held.total_tx_count == total_tx_count
                &&& held.total_gas_used == total_gas_used
                &&& chain@.finalized matches Some(n) ==> held.finalized_number == n
                &&& chain@.finalized is None ==> held.finalized_number == 0
                &&& held.pending_txs == pending_txs@
                &&& held.next_block_timestamp == before.next_block_timestamp
                &&& after.next_block_timestamp == before.next_block_timestamp
            }
        }),
{
    law_snapshot_id_round_trip(old(dev)@.next_snapshot_id);
}

} // verus!
