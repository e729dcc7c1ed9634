//! Blocks, and the index of the chain that they form.

use vstd::prelude::*;

use crate::primitives::{Address, ShellHash};
use crate::table::Table;

verus! {

/// The header fields that the chain rules read.
#[derive(Clone, Copy, Debug)]
pub struct Header {
    /// Height of the block.
    pub number: u64,
    /// Hash of the block before it.
    pub parent_hash: ShellHash,
    /// Root of the world state after the block.
    pub state_root: ShellHash,
    /// Unix time of the block, in seconds.
    pub timestamp: u64,
    /// Gas that the block's transactions used.
    pub gas_used: u64,
}

/// A signed transaction, by the fields that the chain rules read.
#[derive(Clone, Copy, Debug)]
pub struct SignedTransaction {
    /// Hash of the transaction.
    pub hash: ShellHash,
    /// Account that sent it.
    pub sender: Address,
    /// Sequence number at the sender.
    pub nonce: u64,
    /// Gas that it may use.
    pub gas_limit: u64,
    /// Length of its signature in bytes.
    pub signature_len: usize,
}

/// A block with its body.
#[derive(Debug)]
pub struct Block {
    /// Hash of the block.
    pub hash: ShellHash,
    /// Its header.
    pub header: Header,
    /// Its transactions, in order.
    pub transactions: Vec<SignedTransaction>,
    /// How many entries the block adds to a signature batch.
    pub sig_entries: u64,
}

/// A block as a mathematical value.
#[verifier::ext_equal]
pub struct BlockView {
    pub hash: ShellHash,
    pub header: Header,
    pub transactions: Seq<SignedTransaction>,
    pub sig_entries: u64,
}

impl View for Block {
    type V = BlockView;

    open spec fn view(&self) -> BlockView {
        BlockView {
            hash: self.hash,
            header: self.header,
            transactions: self.transactions@,
            sig_entries: self.sig_entries,
        }
    }
}

impl Block {
    /// A copy of the block.
    pub fn duplicate(&self) -> (r: Block)
        ensures
            r@ == self@,
    {
        let mut transactions: Vec<SignedTransaction> = Vec::new();
        let mut i: usize = 0;
        while i < self.transactions.len()
            invariant
                i <= self.transactions@.len(),
                transactions@ == self.transactions@.take(i as int),
            decreases self.transactions.len() - i,
        {
            transactions.push(self.transactions[i]);
            i += 1;
            assert(transactions@ =~= self.transactions@.take(i as int));
        }
        assert(transactions@ =~= self.transactions@);
        Block {
            hash: self.hash,
            header: self.header,
            transactions,
            sig_entries: self.sig_entries,
        }
    }

    /// Height of the block.
    pub fn number(&self) -> (r: u64)
        ensures
            r == self.header.number,
    {
        self.header.number
    }
}

/// One change to the persistent chain state.
#[derive(Clone, Copy, Debug, PartialEq, Eq)]
pub enum StoreOp {
    /// Drop the index entries of a block's transactions.
    DeleteTransactionIndexes(ShellHash),
    /// Make a block the canonical one at a height.
    SetCanonical(u64, ShellHash),
    /// Index the transactions of a block.
    IndexTransactions(ShellHash),
    /// Leave a height without a canonical block.
    DeleteCanonical(u64),
    /// Load the world state of a root.
    SetWorldRoot(ShellHash),
    /// Make a block the head of the chain.
    SetHead(ShellHash),
    /// Count transactions and gas anew, from the first block to a height.
    RebuildTotals(u64),
    /// Record the aggregate counters of a height.
    SetTotals(ChainTotals),
    /// Record the height up to which the chain is final.
    SetFinalized(u64),
}

/// Aggregate counters over the canonical chain.
#[derive(Clone, Copy, Debug, PartialEq, Eq)]
pub struct ChainTotals {
    /// Height up to which blocks were counted.
    pub head: u64,
    /// Transactions counted.
    pub transactions: u128,
    /// Gas counted.
    pub gas_used: u128,
}

/// The hashes of some transactions.
pub open spec fn hashes_of(txs: Seq<SignedTransaction>) -> Set<ShellHash> {
    Set::new(|h: ShellHash| exists|i: int| 0 <= i < txs.len() && (#[trigger] txs[i]).hash == h)
}

/// An index with the first `n` transactions of a block added, later ones over earlier ones.
pub open spec fn with_indexed(
    index: Map<ShellHash, (ShellHash, u64)>,
    block: BlockView,
    n: nat,
) -> Map<ShellHash, (ShellHash, u64)>
    decreases n,
{
    if n == 0 {
        index
    } else {
        with_indexed(index, block, (n - 1) as nat).insert(
            block.transactions[n - 1].hash,
            (block.hash, (n - 1) as u64),
        )
    }
}

/// The chain index as a mathematical value.
#[verifier::ext_equal]
pub struct ChainView {
    /// Blocks with their bodies, by hash.
    pub blocks: Map<ShellHash, BlockView>,
    /// Headers, by hash; a header may outlive its body.
    pub headers: Map<ShellHash, Header>,
    /// The canonical block of each height.
    pub canonical: Map<u64, ShellHash>,
    /// The head of the chain.
    pub head: Option<ShellHash>,
    /// The recorded height of finality.
    pub finalized: Option<u64>,
    /// For each indexed transaction, its block and its place in it.
    pub tx_index: Map<ShellHash, (ShellHash, u64)>,
    /// The aggregate counters, where they were ever computed.
    pub totals: Option<ChainTotals>,
    /// The state roots whose world state can be opened.
    pub state_roots: Set<ShellHash>,
    /// The root of the world state in use.
    pub world_root: ShellHash,
}

impl ChainView {
    /// The canonical block of a height, body and all.
    pub open spec fn block_at(self, number: u64) -> Option<BlockView> {
        if self.canonical.contains_key(number) && self.blocks.contains_key(self.canonical[number]) {
            Some(self.blocks[self.canonical[number]])
        } else {
            None
        }
    }

    /// The block at the head of the chain, body and all.
    pub open spec fn head_block(self) -> Option<BlockView> {
        match self.head {
            Some(h) => if self.blocks.contains_key(h) {
                Some(self.blocks[h])
            } else {
                None
            },
            None => None,
        }
    }

    /// The number of transactions in the canonical blocks below a height.
    pub open spec fn transactions_below(self, end: nat) -> nat
        decreases end,
    {
        if end == 0 {
            0
        } else {
            self.transactions_below((end - 1) as nat) + match self.block_at((end - 1) as u64) {
                Some(b) => b.transactions.len(),
                None => 0,
            }
        }
    }

    /// The gas used in the canonical blocks below a height.
    pub open spec fn gas_below(self, end: nat) -> nat
        decreases end,
    {
        if end == 0 {
            0
        } else {
            self.gas_below((end - 1) as nat) + match self.block_at((end - 1) as u64) {
                Some(b) => b.header.gas_used as nat,
                None => 0,
            }
        }
    }

    /// The chain after one change.
    pub open spec fn apply(self, op: StoreOp) -> ChainView {
        match op {
            StoreOp::DeleteTransactionIndexes(h) => if self.blocks.contains_key(h) {
                ChainView {
                    tx_index: self.tx_index.remove_keys(hashes_of(self.blocks[h].transactions)),
                    ..self
                }
            } else {
                self
            },
            StoreOp::SetCanonical(n, h) => ChainView {
                canonical: self.canonical.insert(n, h),
                ..self
            },
            StoreOp::IndexTransactions(h) => if self.blocks.contains_key(h) {
                ChainView {
                    tx_index: with_indexed(
                        self.tx_index,
                        self.blocks[h],
                        self.blocks[h].transactions.len(),
                    ),
                    ..self
                }
            } else {
                self
            },
            StoreOp::DeleteCanonical(n) => ChainView {
                canonical: self.canonical.remove(n),
                ..self
            },
            StoreOp::SetWorldRoot(r) => ChainView { world_root: r, ..self },
            StoreOp::SetHead(h) => ChainView { head: Some(h), ..self },
            StoreOp::RebuildTotals(n) => ChainView {
                totals: Some(
                    ChainTotals {
                        head: n,
                        transactions: self.transactions_below((n + 1) as nat) as u128,
                        gas_used: self.gas_below((n + 1) as nat) as u128,
                    },
                ),
                ..self
            },
            StoreOp::SetTotals(t) => ChainView { totals: Some(t), ..self },
            StoreOp::SetFinalized(n) => ChainView { finalized: Some(n), ..self },
        }
    }

    /// The chain after some changes, first one first.
    pub open spec fn apply_all(self, ops: Seq<StoreOp>) -> ChainView
        decreases ops.len(),
    {
        if ops.len() == 0 {
            self
        } else {
            self.apply_all(ops.drop_last()).apply(ops.last())
        }
    }
}

/// Changes made one list after the other are the changes of the joined list.
pub proof fn lemma_apply_all_concat(view: ChainView, first: Seq<StoreOp>, second: Seq<StoreOp>)
    ensures
        view.apply_all(first + second) == view.apply_all(first).apply_all(second),
    decreases second.len(),
{
    if second.len() == 0 {
        assert(first + second =~= first);
    } else {
        assert((first + second).drop_last() =~= first + second.drop_last());
        lemma_apply_all_concat(view, first, second.drop_last());
    }
}

/// The counters of `n` blocks fit in 128 bits.
proof fn lemma_totals_bound(view: ChainView, n: nat)
    requires
        forall|h: ShellHash| #[trigger] view.blocks.contains_key(h) ==> view.blocks[h].transactions.len() <= u64::MAX,
    ensures
        view.transactions_below(n) <= n * u64::MAX,
        view.gas_below(n) <= n * u64::MAX,
    decreases n,
{
    if n > 0 {
        lemma_totals_bound(view, (n - 1) as nat);
        assert(n * u64::MAX == (n - 1) * u64::MAX + u64::MAX) by (nonlinear_arith);
        if view.canonical.contains_key((n - 1) as u64) {
            assert(view.blocks.contains_key(view.canonical[(n - 1) as u64])
                ==> view.blocks[view.canonical[(n - 1) as u64]].transactions.len() <= u64::MAX);
        }
    }
}

/// The chain index: which blocks are known, which of them are canonical, and what was derived from
/// them.
pub struct ChainStore {
    blocks: Table<ShellHash, Block>,
    headers: Table<ShellHash, Header>,
    canonical: Table<u64, ShellHash>,
    head: Option<ShellHash>,
    finalized: Option<u64>,
    tx_index: Table<ShellHash, (ShellHash, u64)>,
    totals: Option<ChainTotals>,
    state_roots: Table<ShellHash, ()>,
    world_root: ShellHash,
}

impl View for ChainStore {
    type V = ChainView;

    closed spec fn view(&self) -> ChainView {
        ChainView {
            blocks: self.blocks@.map_values(|b: Block| b@),
            headers: self.headers@,
            canonical: self.canonical@,
            head: self.head,
            finalized: self.finalized,
            tx_index: self.tx_index@,
            totals: self.totals,
            state_roots: self.state_roots@.dom(),
            world_root: self.world_root,
        }
    }
}

impl ChainStore {
    /// A chain index without blocks, whose world state is the one of `world_root`.
    pub fn new(world_root: ShellHash) -> (r: Self)
        ensures
            r@ == (ChainView {
                blocks: Map::empty(),
                headers: Map::empty(),
                canonical: Map::empty(),
                head: None,
                finalized: None,
                tx_index: Map::empty(),
                totals: None,
                state_roots: Set::empty().insert(world_root),
                world_root,
            }),
    {
        let mut state_roots: Table<ShellHash, ()> = Table::new();
        state_roots.insert(world_root, ());
        let r = ChainStore {
            blocks: Table::new(),
            headers: Table::new(),
            canonical: Table::new(),
            head: None,
            finalized: None,
            tx_index: Table::new(),
            totals: None,
            state_roots,
            world_root,
        };
        assert(r@.blocks =~= Map::empty());
        assert(r@.state_roots =~= Set::empty().insert(world_root));
        r
    }

    /// The block of a hash, if its body is known.
    pub fn get_block_by_hash(&self, hash: &ShellHash) -> (r: Option<&Block>)
        ensures
            match r {
                Some(b) => self@.blocks.contains_key(*hash) && self@.blocks[*hash] == b@,
                None => !self@.blocks.contains_key(*hash),
            },
    {
        self.blocks.get(hash)
    }

    /// The header of a hash, if it is known.
    pub fn get_header_by_hash(&self, hash: &ShellHash) -> (r: Option<Header>)
        ensures
            match r {
                Some(h) => self@.headers.contains_key(*hash) && self@.headers[*hash] == h,
                None => !self@.headers.contains_key(*hash),
            },
    {
        match self.headers.get(hash) {
            Some(h) => Some(*h),
            None => None,
        }
    }

    /// The canonical hash of a height.
    pub fn get_block_hash_by_number(&self, number: u64) -> (r: Option<ShellHash>)
        ensures
            match r {
                Some(h) => self@.canonical.contains_key(number) && self@.canonical[number] == h,
                None => !self@.canonical.contains_key(number),
            },
    {
        match self.canonical.get(&number) {
            Some(h) => Some(*h),
            None => None,
        }
    }

    /// The canonical block of a height, if its body is known.
    pub fn get_block_by_number(&self, number: u64) -> (r: Option<&Block>)
        ensures
            match r {
                Some(b) => self@.block_at(number) == Some(b@),
                None => self@.block_at(number) is None,
            },
    {
        match self.canonical.get(&number) {
            Some(h) => self.blocks.get(h),
            None => None,
        }
    }

    /// The lowest height whose canonical block has its body, if there is one.
    pub fn oldest_canonical_body_number(&self) -> (r: Option<u64>)
        ensures
            match r {
                Some(n) => self@.block_at(n) is Some && forall|m: u64|
                    m < n ==> (#[trigger] self@.block_at(m)) is None,
                None => forall|m: u64| (#[trigger] self@.block_at(m)) is None,
            },
    {
        let mut oldest: Option<u64> = None;
        let count: usize = self.canonical.len();
        let ghost rows = self.canonical.rows();
        proof {
            crate::table::lemma_rows_map(rows);
        }
        let mut i: usize = 0;
        while i < count
            invariant
                i <= count,
                count == rows.len(),
                rows == self.canonical.rows(),
                match oldest {
                    Some(n) => self@.block_at(n) is Some && forall|j: int|
                        0 <= j < i && self@.block_at((#[trigger] rows[j]).0) is Some ==> n
                            <= rows[j].0,
                    None => forall|j: int|
                        0 <= j < i ==> self@.block_at((#[trigger] rows[j]).0) is None,
                },
            decreases count - i,
        {
            let number: u64 = self.canonical.row(i).0;
            if self.get_block_by_number(number).is_some() {
                oldest = match oldest {
                    Some(n) => if n <= number {
                        Some(n)
                    } else {
                        Some(number)
                    },
                    None => Some(number),
                };
            }
            i += 1;
        }
        proof {
            assert forall|m: u64| (#[trigger] self@.block_at(m)) is Some implies exists|j: int|
                0 <= j < rows.len() && (#[trigger] rows[j]).0 == m by {
                assert(self.canonical@.contains_key(m));
            }
        }
        oldest
    }

    /// The hash of the head.
    pub fn get_head_hash(&self) -> (r: Option<ShellHash>)
        ensures
            r == self@.head,
    {
        self.head
    }

    /// The block at the head, if there is one and its body is known.
    pub fn get_head_block(&self) -> (r: Option<&Block>)
        ensures
            match r {
                Some(b) => self@.head_block() == Some(b@),
                None => self@.head_block() is None,
            },
    {
        match &self.head {
            Some(h) => self.blocks.get(h),
            None => None,
        }
    }

    /// The recorded height of finality.
    pub fn get_finalized_number(&self) -> (r: Option<u64>)
        ensures
            r == self@.finalized,
    {
        self.finalized
    }

    /// Where an indexed transaction stands.
    pub fn get_tx_location(&self, hash: &ShellHash) -> (r: Option<(ShellHash, u64)>)
        ensures
            match r {
                Some(l) => self@.tx_index.contains_key(*hash) && self@.tx_index[*hash] == l,
                None => !self@.tx_index.contains_key(*hash),
            },
    {
        match self.tx_index.get(hash) {
            Some(l) => Some(*l),
            None => None,
        }
    }

    /// The aggregate counters, where they were ever computed.
    pub fn get_chain_totals(&self) -> (r: Option<ChainTotals>)
        ensures
            r == self@.totals,
    {
        self.totals
    }

    /// The root of the world state in use.
    pub fn world_root(&self) -> (r: ShellHash)
        ensures
            r == self@.world_root,
    {
        self.world_root
    }

    /// Whether the world state of a root can be opened.
    pub fn has_state(&self, root: &ShellHash) -> (r: bool)
        ensures
            r == self@.state_roots.contains(*root),
    {
        self.state_roots.contains_key(root)
    }

    /// Records that the world state of a root can be opened.
    pub fn add_state(&mut self, root: ShellHash)
        ensures
            final(self)@ == (ChainView { state_roots: old(self)@.state_roots.insert(root), ..old(self)@ }),
    {
        self.state_roots.insert(root, ());
        assert(self@.state_roots =~= old(self)@.state_roots.insert(root));
    }

    /// Records that the world state of a root can no longer be opened.
    pub fn remove_state(&mut self, root: &ShellHash)
        ensures
            final(self)@ == (ChainView { state_roots: old(self)@.state_roots.remove(*root), ..old(self)@ }),
    {
        self.state_roots.remove(root);
        assert(self@.state_roots =~= old(self)@.state_roots.remove(*root));
    }

    /// Adds a block of a side fork: it is known, and not indexed.
    pub fn put_side_fork_block(&mut self, block: Block)
        ensures
            final(self)@ == (ChainView {
                blocks: old(self)@.blocks.insert(block.hash, block@),
                headers: old(self)@.headers.insert(block.hash, block.header),
                ..old(self)@
            }),
    {
        let hash = block.hash;
        self.headers.insert(hash, block.header);
        self.blocks.insert(hash, block);
        assert(self@.blocks =~= old(self)@.blocks.insert(hash, block@));
    }

    /// Adds a block and indexes its transactions.
    pub fn put_block(&mut self, block: Block)
        ensures
            final(self)@ == (ChainView {
                blocks: old(self)@.blocks.insert(block.hash, block@),
                headers: old(self)@.headers.insert(block.hash, block.header),
                ..old(self)@
            }).apply(StoreOp::IndexTransactions(block.hash)),
    {
        let hash = block.hash;
        self.put_side_fork_block(block);
        self.index_block_transactions(&hash);
    }

    /// Forgets the body of a block; its header stays.
    pub fn prune_body(&mut self, hash: &ShellHash)
        ensures
            final(self)@ == (ChainView { blocks: old(self)@.blocks.remove(*hash), ..old(self)@ }),
    {
        self.blocks.remove(hash);
        assert(self@.blocks =~= old(self)@.blocks.remove(*hash));
    }

    fn index_block_transactions(&mut self, hash: &ShellHash)
        ensures
            final(self)@ == old(self)@.apply(StoreOp::IndexTransactions(*hash)),
    {
        let mut txs: Vec<ShellHash> = Vec::new();
        match self.blocks.get(hash) {
            Some(block) => {
                let ghost view = block@;
                let mut i: usize = 0;
                while i < block.transactions.len()
                    invariant
                        i <= block.transactions@.len(),
                        txs@.len() == i,
                        forall|j: int| 0 <= j < i ==> txs@[j] == block.transactions@[j].hash,
                    decreases block.transactions.len() - i,
                {
                    txs.push(block.transactions[i].hash);
                    i += 1;
                }
                assert(self@.blocks[*hash] == view);
            },
            None => {
                assert(!self@.blocks.contains_key(*hash));
                return ;
            },
        }
        let ghost block = self@.blocks[*hash];
        let ghost start = self@;
        let mut i: usize = 0;
        let block_hash = match self.blocks.get(hash) {
            Some(b) => b.hash,
            None => *hash,
        };
        assert(block_hash == block.hash);
        while i < txs.len()
            invariant
                i <= txs@.len(),
                txs@.len() == block.transactions.len(),
                block_hash == block.hash,
                forall|j: int| 0 <= j < txs@.len() ==> txs@[j] == block.transactions[j].hash,
                self@ == (ChainView { tx_index: with_indexed(start.tx_index, block, i as nat), ..start }),
            decreases txs.len() - i,
        {
            self.tx_index.insert(txs[i], (block_hash, i as u64));
            i += 1;
        }
    }

    fn delete_block_transaction_indexes(&mut self, hash: &ShellHash)
        ensures
            final(self)@ == old(self)@.apply(StoreOp::DeleteTransactionIndexes(*hash)),
    {
        let mut txs: Vec<ShellHash> = Vec::new();
        match self.blocks.get(hash) {
            Some(block) => {
                let mut i: usize = 0;
                while i < block.transactions.len()
                    invariant
                        i <= block.transactions@.len(),
                        txs@.len() == i,
                        forall|j: int| 0 <= j < i ==> txs@[j] == block.transactions@[j].hash,
                    decreases block.transactions.len() - i,
                {
                    txs.push(block.transactions[i].hash);
                    i += 1;
                }
                assert(self@.blocks[*hash] == block@);
            },
            None => {
                assert(!self@.blocks.contains_key(*hash));
                return ;
            },
        }
        let ghost block = self@.blocks[*hash];
        let ghost start = self@;
        let mut i: usize = 0;
        assert(start.tx_index.remove_keys(hashes_of(block.transactions.take(0))) =~= start.tx_index);
        while i < txs.len()
            invariant
                i <= txs@.len(),
                txs@.len() == block.transactions.len(),
                forall|j: int| 0 <= j < txs@.len() ==> txs@[j] == block.transactions[j].hash,
                self@ == (ChainView {
                    tx_index: start.tx_index.remove_keys(
                        hashes_of(block.transactions.take(i as int)),
                    ),
                    ..start
                }),
            decreases txs.len() - i,
        {
            self.tx_index.remove(&txs[i]);
            proof {
                let before = block.transactions.take(i as int);
                let after = block.transactions.take(i + 1);
                let gone = txs@[i as int];
                assert(hashes_of(after) =~= hashes_of(before).insert(gone)) by {
                    assert forall|h: ShellHash| hashes_of(before).insert(gone).contains(h) implies #[trigger] hashes_of(
                        after,
                    ).contains(h) by {
                        if h == gone {
                            assert(after[i as int].hash == h);
                        } else {
                            let j = choose|j: int|
                                0 <= j < before.len() && (#[trigger] before[j]).hash == h;
                            assert(after[j].hash == h);
                        }
                    }
                    assert forall|h: ShellHash| #[trigger] hashes_of(after).contains(h) implies hashes_of(
                        before,
                    ).insert(gone).contains(h) by {
                        let j = choose|j: int| 0 <= j < after.len() && (#[trigger] after[j]).hash == h;
                        if j < i {
                            assert(before[j].hash == h);
                        }
                    }
                }
                assert(self@.tx_index =~= start.tx_index.remove_keys(hashes_of(after)));
            }
            i += 1;
        }
        assert(block.transactions.take(i as int) =~= block.transactions);
    }

    fn rebuild_chain_totals(&mut self, number: u64)
        ensures
            final(self)@ == old(self)@.apply(StoreOp::RebuildTotals(number)),
    {
        let mut transactions: u128 = 0;
        let mut gas_used: u128 = 0;
        let mut n: u64 = 0;
        let ghost view = self@;
        proof {
            assert forall|h: ShellHash| #[trigger]
                view.blocks.contains_key(h) implies view.blocks[h].transactions.len()
                <= u64::MAX by {
                assert(view.blocks[h] == self.blocks@[h]@);
                assert(self.blocks@[h].transactions@.len() == self.blocks@[h].transactions.len());
            }
        }
        loop
            invariant_except_break
                transactions == view.transactions_below(n as nat),
                gas_used == view.gas_below(n as nat),
            invariant
                n <= number,
                view == self@,
                forall|h: ShellHash| #[trigger]
                    view.blocks.contains_key(h) ==> view.blocks[h].transactions.len() <= u64::MAX,
            ensures
                view == self@,
                transactions == view.transactions_below((number + 1) as nat),
                gas_used == view.gas_below((number + 1) as nat),
            decreases number - n,
        {
            proof {
                lemma_totals_bound(view, (n + 1) as nat);
                assert((n + 1) * u64::MAX <= u128::MAX) by (nonlinear_arith)
                    requires
                        n <= u64::MAX,
                ;
                reveal_with_fuel(ChainView::transactions_below, 2);
                reveal_with_fuel(ChainView::gas_below, 2);
            }
            match self.get_block_by_number(n) {
                Some(block) => {
                    transactions = transactions + block.transactions.len() as u128;
                    gas_used = gas_used + block.header.gas_used as u128;
                },
                None => {},
            }
            if n == number {
                break ;
            }
            n += 1;
        }
        self.totals = Some(ChainTotals { head: number, transactions, gas_used });
    }

    /// Makes one change.
    pub fn apply(&mut self, op: StoreOp)
        ensures
            final(self)@ == old(self)@.apply(op),
    {
        match op {
            StoreOp::DeleteTransactionIndexes(h) => {
                self.delete_block_transaction_indexes(&h);
            },
            StoreOp::SetCanonical(n, h) => {
                self.canonical.insert(n, h);
            },
            StoreOp::IndexTransactions(h) => {
                self.index_block_transactions(&h);
            },
            StoreOp::DeleteCanonical(n) => {
                self.canonical.remove(&n);
            },
            StoreOp::SetWorldRoot(r) => {
                self.world_root = r;
            },
            StoreOp::SetHead(h) => {
                self.head = Some(h);
            },
            StoreOp::RebuildTotals(n) => {
                self.rebuild_chain_totals(n);
            },
            StoreOp::SetTotals(t) => {
                self.totals = Some(t);
            },
            StoreOp::SetFinalized(n) => {
                self.finalized = Some(n);
            },
        }
    }

    /// Makes some changes, first one first.
    pub fn apply_all(&mut self, ops: &Vec<StoreOp>)
        ensures
            final(self)@ == old(self)@.apply_all(ops@),
    {
        let mut i: usize = 0;
        let ghost start = self@;
        assert(ops@.take(0) =~= Seq::<StoreOp>::empty());
        while i < ops.len()
            invariant
                i <= ops@.len(),
                self@ == start.apply_all(ops@.take(i as int)),
            decreases ops.len() - i,
        {
            self.apply(ops[i]);
            assert(ops@.take(i + 1).drop_last() =~= ops@.take(i as int));
            i += 1;
        }
        assert(ops@.take(i as int) =~= ops@);
    }
}

/// Indexing a block's transactions puts each of them at the last place that its hash has in the
/// block, and leaves every other entry as it was.
pub proof fn law_indexed_transactions(
    index: Map<ShellHash, (ShellHash, u64)>,
    block: BlockView,
    n: nat,
    hash: ShellHash,
)
    requires
        n <= block.transactions.len(),
        block.transactions.len() <= u64::MAX,
    ensures
        ({
            let after = with_indexed(index, block, n);
            let held = exists|i: int| 0 <= i < n && (#[trigger] block.transactions[i]).hash == hash;
            &&& !held ==> (after.contains_key(hash) <==> index.contains_key(hash)) && after[hash]
                == index[hash]
            &&& held ==> {
                &&& after.contains_key(hash)
                &&& after[hash].0 == block.hash
                &&& after[hash].1 < n
                &&& block.transactions[after[hash].1 as int].hash == hash
                &&& forall|j: int|
                    after[hash].1 < j < n ==> (#[trigger] block.transactions[j]).hash != hash
            }
        }),
    decreases n,
{
    if n > 0 {
        law_indexed_transactions(index, block, (n - 1) as nat, hash);
        assert(block.transactions[n - 1].hash == hash || block.transactions[n - 1].hash != hash);
        if exists|i: int| 0 <= i < n - 1 && (#[trigger] block.transactions[i]).hash == hash {
            let i = choose|i: int| 0 <= i < n - 1 && (#[trigger] block.transactions[i]).hash == hash;
            assert(block.transactions[i].hash == hash);
        }
    }
}

/// Indexing and unindexing a block change the entries of its own transactions and nothing else: after
/// the one every transaction of the block is found in it, after the other none is found.
pub proof fn law_indexing_and_unindexing(view: ChainView, block: ShellHash, i: int, other: ShellHash)
    requires
        view.blocks.contains_key(block),
        0 <= i < view.blocks[block].transactions.len() <= u64::MAX,
        forall|j: int|
            0 <= j < view.blocks[block].transactions.len() ==> (
            #[trigger] view.blocks[block].transactions[j]).hash != other,
    ensures
        ({
            let tx = view.blocks[block].transactions[i];
            let there = view.apply(StoreOp::IndexTransactions(block));
            let gone = view.apply(StoreOp::DeleteTransactionIndexes(block));
            &&& there.tx_index.contains_key(tx.hash)
            &&& there.tx_index[tx.hash].0 == view.blocks[block].hash
            &&& !gone.tx_index.contains_key(tx.hash)
            &&& there.tx_index.contains_key(other) <==> view.tx_index.contains_key(other)
            &&& gone.tx_index.contains_key(other) <==> view.tx_index.contains_key(other)
            &&& view.tx_index.contains_key(other) ==> there.tx_index[other] == view.tx_index[other]
                && gone.tx_index[other] == view.tx_index[other]
            &&& there == (ChainView { tx_index: there.tx_index, ..view })
            &&& gone == (ChainView { tx_index: gone.tx_index, ..view })
        }),
{
    let all = view.blocks[block];
    let tx = all.transactions[i];
    law_indexed_transactions(view.tx_index, all, all.transactions.len(), tx.hash);
    law_indexed_transactions(view.tx_index, all, all.transactions.len(), other);
    assert(hashes_of(all.transactions).contains(tx.hash));
    assert(!hashes_of(all.transactions).contains(other));
}

/// Counting anew up to one height more adds the transactions and the gas of the canonical block of
/// that height, or nothing where it is missing; up to the genesis block there are its own.
pub proof fn law_totals_count_every_canonical_block(view: ChainView, number: u64)
    ensures
        ({
            let block = view.block_at(number);
            let txs: nat = if block is Some {
                block->0.transactions.len()
            } else {
                0
            };
            let gas: nat = if block is Some {
                block->0.header.gas_used as nat
            } else {
                0
            };
            &&& view.transactions_below((number + 1) as nat) == view.transactions_below(
                number as nat,
            ) + txs
            &&& view.gas_below((number + 1) as nat) == view.gas_below(number as nat) + gas
            &&& view.transactions_below(0) == 0
            &&& view.gas_below(0) == 0
            &&& view.apply(StoreOp::RebuildTotals(number)).totals matches Some(totals)
            &&& totals.head == number
            &&& totals.transactions == view.transactions_below((number + 1) as nat) as u128
            &&& totals.gas_used == view.gas_below((number + 1) as nat) as u128
        }),
        view.block_at(number) is Some <==> view.canonical.contains_key(number)
            && view.blocks.contains_key(view.canonical[number]),
        view.block_at(number) is Some ==> view.block_at(number)->0
            == view.blocks[view.canonical[number]],
{
}

/// A change of one height, of the head or of finality is what is read afterwards, and every other
/// height stays as it was.
pub proof fn law_changes_are_read_back(view: ChainView, number: u64, other: u64, hash: ShellHash)
    ensures
        ({
            let set = view.apply(StoreOp::SetCanonical(number, hash));
            let deleted = view.apply(StoreOp::DeleteCanonical(number));
            &&& set.canonical.contains_key(number) && set.canonical[number] == hash
            &&& !deleted.canonical.contains_key(number)
            &&& other != number ==> (set.canonical.contains_key(other)
                <==> view.canonical.contains_key(other)) && (deleted.canonical.contains_key(other)
                <==> view.canonical.contains_key(other))
            &&& other != number && view.canonical.contains_key(other) ==> set.canonical[other]
                == view.canonical[other] && deleted.canonical[other] == view.canonical[other]
            &&& set == (ChainView { canonical: set.canonical, ..view })
            &&& deleted == (ChainView { canonical: deleted.canonical, ..view })
        }),
        view.apply(StoreOp::SetHead(hash)) == (ChainView { head: Some(hash), ..view }),
        view.apply(StoreOp::SetFinalized(number)) == (ChainView { finalized: Some(number), ..view }),
        view.apply(StoreOp::SetWorldRoot(hash)) == (ChainView { world_root: hash, ..view }),
        view.blocks.contains_key(hash) ==> view.apply(StoreOp::SetHead(hash)).head_block() == Some(
            view.blocks[hash],
        ),
        !view.blocks.contains_key(hash) ==> view.apply(StoreOp::SetHead(hash)).head_block() is None,
{
}

/// Changes are made in their order: a list of changes is its first part, then the rest.
pub proof fn law_changes_are_made_in_order(view: ChainView, ops: Seq<StoreOp>, last: StoreOp)
    ensures
        view.apply_all(Seq::empty()) == view,
        view.apply_all(ops.push(last)) == view.apply_all(ops).apply(last),
{
    assert(ops.push(last).drop_last() =~= ops);
}

/// A stored block is found under its hash with its header, its transactions are found in it, and no
/// other block, header or entry changes; a block of a side fork is not indexed.
pub proof fn law_stored_blocks_are_found(
    store: &mut ChainStore,
    side: &mut ChainStore,
    block: Block,
    other: ShellHash,
    i: int,
)
    requires
        call_ensures(ChainStore::put_block, (store, block), ()),
        call_ensures(ChainStore::put_side_fork_block, (side, block), ()),
        0 <= i < block.transactions@.len() <= u64::MAX,
    ensures
        final(store)@.blocks.contains_key(block.hash),
        final(store)@.blocks[block.hash] == block@,
        final(store)@.headers.contains_key(block.hash),
        final(store)@.headers[block.hash] == block.header,
        final(store)@.tx_index.contains_key(block.transactions@[i].hash),
        final(store)@.tx_index[block.transactions@[i].hash].0 == block.hash,
        other != block.hash ==> (final(store)@.blocks.contains_key(other) <==> old(
            store,
        )@.blocks.contains_key(other)) && (final(store)@.headers.contains_key(other) <==> old(
            store,
        )@.headers.contains_key(other)),
        final(store)@.canonical == old(store)@.canonical,
        final(store)@.head == old(store)@.head,
        final(store)@.finalized == old(store)@.finalized,
        final(store)@.totals == old(store)@.totals,
        final(side)@.blocks.contains_key(block.hash),
        final(side)@.blocks[block.hash] == block@,
        final(side)@.headers[block.hash] == block.header,
        final(side)@.tx_index == old(side)@.tx_index,
        final(side)@.canonical == old(side)@.canonical,
        final(side)@.head == old(side)@.head,
{
    let txs = block@.transactions;
    assert(txs[i].hash == block.transactions@[i].hash);
    law_indexed_transactions(old(store)@.tx_index, block@, txs.len(), txs[i].hash);
}

/// Pruning a body takes that body away and leaves its header, the canonical chain and the index; a
/// world state that is added is there, and one that is removed is not.
pub proof fn law_what_pruning_takes(
    store: &mut ChainStore,
    added: &mut ChainStore,
    removed: &mut ChainStore,
    hash: ShellHash,
    other: ShellHash,
)
    requires
        call_ensures(ChainStore::prune_body, (store, &hash), ()),
        call_ensures(ChainStore::add_state, (added, hash), ()),
        call_ensures(ChainStore::remove_state, (removed, &hash), ()),
    ensures
        !final(store)@.blocks.contains_key(hash),
        other != hash ==> (final(store)@.blocks.contains_key(other) <==> old(
            store,
        )@.blocks.contains_key(other)),
        final(store)@.headers == old(store)@.headers,
        final(store)@.canonical == old(store)@.canonical,
        final(store)@.tx_index == old(store)@.tx_index,
        final(added)@.state_roots.contains(hash),
        !final(removed)@.state_roots.contains(hash),
        other != hash ==> (final(added)@.state_roots.contains(other) <==> old(
            added,
        )@.state_roots.contains(other)) && (final(removed)@.state_roots.contains(other) <==> old(
            removed,
        )@.state_roots.contains(other)),
{
}

/// The lowest canonical body is that of a height with a known canonical block below which there is
/// none.
pub proof fn law_lowest_canonical_body(store: ChainStore, lowest: Option<u64>, number: u64)
    requires
        call_ensures(ChainStore::oldest_canonical_body_number, (&store,), lowest),
        store@.canonical.contains_key(number),
        store@.blocks.contains_key(store@.canonical[number]),
    ensures
        lowest matches Some(n) && n <= number && store@.canonical.contains_key(n)
            && store@.blocks.contains_key(store@.canonical[n]),
{
    assert(store@.block_at(number) is Some);
}

} // verus!
