//! State-trie snapshots and their pruning.

use vstd::prelude::*;

use crate::chain::{ChainStore, ChainView};
use crate::error::NodeError;
use crate::primitives::ShellHash;
use crate::pruning::StorageProfile;
use crate::table::Table;

verus! {

/// The trie nodes of a store as a mathematical value.
#[verifier::ext_equal]
pub struct TrieView {
    /// For each known state root, the hashes of the nodes that its snapshot reaches.
    pub snapshots: Map<ShellHash, Seq<ShellHash>>,
    /// The nodes that are stored.
    pub nodes: Set<ShellHash>,
}

/// Which trie nodes are stored, and which of them each snapshot reaches.
pub struct TrieStore {
    snapshots: Table<ShellHash, Vec<ShellHash>>,
    nodes: Table<ShellHash, ()>,
}

impl View for TrieStore {
    type V = TrieView;

    closed spec fn view(&self) -> TrieView {
        TrieView {
            snapshots: self.snapshots@.map_values(|v: Vec<ShellHash>| v@),
            nodes: self.nodes@.dom(),
        }
    }
}

/// Summary of a state-trie prune pass.
#[derive(Debug, Clone, Copy, PartialEq, Eq, Structural)]
pub struct StateTriePruneResult {
    /// Snapshots of which nodes were deleted.
    pub pruned_roots: u64,
    /// Nodes deleted.
    pub deleted_nodes: u64,
    /// Snapshots that had nothing left to delete.
    pub skipped_roots: u64,
}

impl Default for StateTriePruneResult {
    fn default() -> (r: Self)
        ensures
            r == (StateTriePruneResult { pruned_roots: 0, deleted_nodes: 0, skipped_roots: 0 }),
    {
        StateTriePruneResult { pruned_roots: 0, deleted_nodes: 0, skipped_roots: 0 }
    }
}

/// A sum that stays at the largest value where it would exceed it.
pub open spec fn saturated(a: u64, b: nat) -> u64 {
    if a + b > u64::MAX {
        u64::MAX
    } else {
        (a + b) as u64
    }
}

/// The state root of the canonical block of a height, where its header is known.
pub open spec fn canonical_root(view: ChainView, number: u64) -> Option<ShellHash> {
    if view.canonical.contains_key(number) && view.headers.contains_key(view.canonical[number]) {
        Some(view.headers[view.canonical[number]].state_root)
    } else {
        None
    }
}

/// The state roots of the canonical blocks below a height, lowest first.
pub open spec fn roots_below(view: ChainView, end: nat) -> Seq<ShellHash>
    decreases end,
{
    if end == 0 {
        Seq::empty()
    } else {
        match canonical_root(view, (end - 1) as u64) {
            Some(root) => roots_below(view, (end - 1) as nat).push(root),
            None => roots_below(view, (end - 1) as nat),
        }
    }
}

/// The first height of the window of states that a prune pass retains.
pub open spec fn window_start(keep_below: u64, head: u64) -> u64 {
    if keep_below < head {
        keep_below
    } else {
        head
    }
}

/// Whether a state root is that of a canonical block in the retained window.
pub open spec fn is_retained(view: ChainView, keep_below: u64, head: u64, root: ShellHash) -> bool {
    exists|n: u64|
        window_start(keep_below, head) <= n <= head && #[trigger] canonical_root(view, n) == Some(
            root,
        )
}

/// The nodes that some snapshot of the retained window reaches.
pub open spec fn protected_nodes(
    view: ChainView,
    trie: TrieView,
    keep_below: u64,
    head: u64,
) -> Set<ShellHash> {
    Set::new(
        |node: ShellHash|
            exists|root: ShellHash|
                is_retained(view, keep_below, head, root) && trie.snapshots.contains_key(root)
                    && #[trigger] trie.snapshots[root].contains(node),
    )
}

/// The nodes that pruning a root deletes: those that its snapshot reaches and that are not
/// protected.
pub open spec fn deletable(
    snapshots: Map<ShellHash, Seq<ShellHash>>,
    protected: Set<ShellHash>,
    root: ShellHash,
) -> Set<ShellHash> {
    Set::new(
        |node: ShellHash|
            snapshots.contains_key(root) && snapshots[root].contains(node) && !protected.contains(
                node,
            ),
    )
}

/// The stored nodes and the summary once the first `k` of some roots have been pruned. A root that
/// occurred before is passed over.
pub open spec fn pruned(
    trie: TrieView,
    protected: Set<ShellHash>,
    roots: Seq<ShellHash>,
    k: nat,
) -> (Set<ShellHash>, StateTriePruneResult)
    decreases k,
{
    if k == 0 {
        (
            trie.nodes,
            StateTriePruneResult { pruned_roots: 0, deleted_nodes: 0, skipped_roots: 0 },
        )
    } else {
        let (nodes, result) = pruned(trie, protected, roots, (k - 1) as nat);
        let root = roots[k - 1];
        if roots.take(k - 1).contains(root) {
            (nodes, result)
        } else {
            let after = nodes.difference(deletable(trie.snapshots, protected, root));
            let deleted = (nodes.len() - after.len()) as nat;
            (
                after,
                if deleted > 0 {
                    StateTriePruneResult {
                        pruned_roots: saturated(result.pruned_roots, 1),
                        deleted_nodes: saturated(result.deleted_nodes, deleted),
                        skipped_roots: result.skipped_roots,
                    }
                } else {
                    StateTriePruneResult {
                        skipped_roots: saturated(result.skipped_roots, 1),
                        ..result
                    }
                },
            )
        }
    }
}

/// Whether a prune pass has anything to do.
pub open spec fn prunes(view: ChainView, keep_below: u64, profile: StorageProfile) -> bool {
    keep_below > 0 && profile == StorageProfile::Light && view.head_block() is Some
}

/// The first height of the retained window, at or above `from`, whose state has no known snapshot.
pub open spec fn first_unknown(view: ChainView, trie: TrieView, from: int, head: u64) -> Option<
    ShellHash,
>
    decreases head + 1 - from,
{
    if from > head {
        None
    } else {
        match canonical_root(view, from as u64) {
            Some(root) => if trie.snapshots.contains_key(root) {
                first_unknown(view, trie, from + 1, head)
            } else {
                Some(root)
            },
            None => first_unknown(view, trie, from + 1, head),
        }
    }
}

impl TrieStore {
    /// A store without nodes.
    pub fn new() -> (r: Self)
        ensures
            r@ == (TrieView { snapshots: Map::empty(), nodes: Set::empty() }),
    {
        let r = TrieStore { snapshots: Table::new(), nodes: Table::new() };
        assert(r@.snapshots =~= Map::empty());
        assert(r@.nodes =~= Set::empty());
        r
    }

    /// Stores the nodes that the snapshot of a root reaches.
    pub fn add_snapshot(&mut self, root: ShellHash, nodes: Vec<ShellHash>)
        ensures
            final(self)@ == (TrieView {
                snapshots: old(self)@.snapshots.insert(root, nodes@),
                nodes: old(self)@.nodes.union(nodes@.to_set()),
            }),
    {
        let mut i: usize = 0;
        let ghost start = self@;
        assert(start.nodes.union(nodes@.take(0).to_set()) =~= start.nodes);
        while i < nodes.len()
            invariant
                i <= nodes@.len(),
                self@.snapshots == start.snapshots,
                self@.nodes == start.nodes.union(nodes@.take(i as int).to_set()),
            decreases nodes.len() - i,
        {
            let ghost before = self@.nodes;
            self.nodes.insert(nodes[i], ());
            proof {
                assert(self@.nodes =~= before.insert(nodes@[i as int]));
                let shorter = nodes@.take(i as int);
                let longer = nodes@.take(i + 1);
                assert(longer =~= shorter.push(nodes@[i as int]));
                assert forall|h: ShellHash| #[trigger] longer.to_set().contains(h) <==> shorter.to_set().contains(h)
                    || h == nodes@[i as int] by {
                    if h == nodes@[i as int] {
                        assert(longer[i as int] == h);
                    }
                    if shorter.contains(h) {
                        let j = choose|j: int| 0 <= j < shorter.len() && shorter[j] == h;
                        assert(longer[j] == h);
                    }
                    if longer.contains(h) {
                        let j = choose|j: int| 0 <= j < longer.len() && longer[j] == h;
                        if j < i {
                            assert(shorter[j] == h);
                        }
                    }
                }
                assert(self@.nodes =~= start.nodes.union(longer.to_set()));
            }
            i += 1;
        }
        assert(nodes@.take(i as int) =~= nodes@);
        self.snapshots.insert(root, nodes);
        assert(self@.snapshots =~= start.snapshots.insert(root, nodes@));
    }

    /// Whether a node is stored.
    pub fn has_node(&self, node: &ShellHash) -> (r: bool)
        ensures
            r == self@.nodes.contains(*node),
    {
        self.nodes.contains_key(node)
    }

    /// Whether the snapshot of a root can be read: it is known, and every node that it reaches is
    /// stored.
    pub fn has_snapshot(&self, root: &ShellHash) -> (r: bool)
        ensures
            r == self@.readable(*root),
    {
        match self.snapshots.get(root) {
            Some(nodes) => {
                let mut i: usize = 0;
                while i < nodes.len()
                    invariant
                        i <= nodes@.len(),
                        self@.snapshots.contains_key(*root),
                        self@.snapshots[*root] == nodes@,
                        forall|j: int| 0 <= j < i ==> self@.nodes.contains(nodes@[j]),
                    decreases nodes.len() - i,
                {
                    if !self.nodes.contains_key(&nodes[i]) {
                        assert(!self@.nodes.contains(self@.snapshots[*root][i as int]));
                        return false;
                    }
                    i += 1;
                }
                true
            },
            None => {
                assert(!self@.snapshots.contains_key(*root));
                false
            },
        }
    }

    /// Deletes the nodes of a root's snapshot that are not protected, and counts them.
    fn delete_snapshot(&mut self, root: &ShellHash, protected: &Table<ShellHash, ()>) -> (r: u64)
        ensures
            final(self)@.snapshots == old(self)@.snapshots,
            final(self)@.nodes == old(self)@.nodes.difference(
                deletable(old(self)@.snapshots, protected@.dom(), *root),
            ),
            r == old(self)@.nodes.len() - final(self)@.nodes.len(),
    {
        let ghost start = self@;
        let ghost gone = deletable(start.snapshots, protected@.dom(), *root);
        let nodes: Vec<ShellHash> = match self.snapshots.get(root) {
            Some(nodes) => {
                let copy = nodes.clone();
                assert(copy@ =~= nodes@);
                copy
            },
            None => {
                assert(!start.snapshots.contains_key(*root));
                assert(start.nodes.difference(gone) =~= start.nodes);
                return 0;
            },
        };
        assert(nodes@ == start.snapshots[*root]);
        let mut deleted: u64 = 0;
        let mut i: usize = 0;
        while i < nodes.len()
            invariant
                i <= nodes@.len(),
                deleted <= i,
                self@.snapshots == start.snapshots,
                start.snapshots.contains_key(*root),
                nodes@ == start.snapshots[*root],
                gone == deletable(start.snapshots, protected@.dom(), *root),
                self@.nodes.subset_of(start.nodes),
                forall|h: ShellHash|
                    start.nodes.contains(h) && !self@.nodes.contains(h) ==> gone.contains(h),
                forall|j: int|
                    0 <= j < i && gone.contains(nodes@[j]) ==> !self@.nodes.contains(nodes@[j]),
                self@.nodes.len() + deleted == start.nodes.len(),
            decreases nodes.len() - i,
        {
            let node = nodes[i];
            let ghost before = self@.nodes;
            let stored: bool = self.nodes.contains_key(&node);
            if stored && !protected.contains_key(&node) {
                self.nodes.remove(&node);
                assert(self@.nodes =~= before.remove(node));
                assert(gone.contains(node));
                deleted += 1;
            }
            i += 1;
        }
        proof {
            assert forall|h: ShellHash| gone.contains(h) implies !self@.nodes.contains(h) by {
                let j = choose|j: int| 0 <= j < start.snapshots[*root].len() && start.snapshots[*root][j] == h;
                assert(gone.contains(nodes@[j]));
            }
            assert(self@.nodes =~= start.nodes.difference(gone));
        }
        deleted
    }
}

impl TrieView {
    /// Whether the snapshot of a root can be read: it is known, and every node that it reaches is
    /// stored.
    pub open spec fn readable(self, root: ShellHash) -> bool {
        self.snapshots.contains_key(root) && forall|i: int|
            0 <= i < self.snapshots[root].len() ==> self.nodes.contains(
                #[trigger] self.snapshots[root][i],
            )
    }
}

/// The state roots of the canonical blocks below a height, lowest first.
fn collect_roots_below(chain: &ChainStore, end: u64) -> (r: Vec<ShellHash>)
    ensures
        r@ == roots_below(chain@, end as nat),
{
    let mut roots: Vec<ShellHash> = Vec::new();
    let mut n: u64 = 0;
    while n < end
        invariant
            n <= end,
            roots@ == roots_below(chain@, n as nat),
        decreases end - n,
    {
        match root_at(chain, n) {
            Some(root) => roots.push(root),
            None => {},
        }
        n += 1;
    }
    roots
}

/// The state root of the canonical block of a height, where its header is known.
fn root_at(chain: &ChainStore, number: u64) -> (r: Option<ShellHash>)
    ensures
        r == canonical_root(chain@, number),
{
    match chain.get_block_hash_by_number(number) {
        Some(hash) => match chain.get_header_by_hash(&hash) {
            Some(header) => Some(header.state_root),
            None => None,
        },
        None => None,
    }
}

/// The nodes that the snapshots of the retained window reach, or a state of the window without a
/// known snapshot.
fn collect_protected(chain: &ChainStore, trie: &TrieStore, keep_below: u64, head: u64) -> (r: Result<
    Table<ShellHash, ()>,
    NodeError,
>)
    ensures
        match first_unknown(chain@, trie@, window_start(keep_below, head) as int, head) {
            Some(root) => r == Err::<Table<ShellHash, ()>, NodeError>(
                NodeError::StateUnavailable { root },
            ),
            None => r matches Ok(t) && t@.dom() == protected_nodes(chain@, trie@, keep_below, head),
        },
{
    let from: u64 = if keep_below < head {
        keep_below
    } else {
        head
    };
    let mut protected: Table<ShellHash, ()> = Table::new();
    let mut n: u64 = from;
    let ghost view = chain@;
    let ghost tv = trie@;
    loop
        invariant_except_break
            first_unknown(view, tv, n as int, head) == first_unknown(view, tv, from as int, head),
            forall|node: ShellHash| #[trigger]
                protected@.contains_key(node) <==> exists|m: u64|
                    from <= m < n && #[trigger] canonical_root(view, m) is Some
                        && tv.snapshots.contains_key(canonical_root(view, m)->0)
                        && tv.snapshots[canonical_root(view, m)->0].contains(node),
        invariant
            from <= n <= head,
            view == chain@,
            tv == trie@,
            from == window_start(keep_below, head),
        ensures
            first_unknown(view, tv, from as int, head) is None,
            forall|node: ShellHash| #[trigger]
                protected@.contains_key(node) <==> exists|m: u64|
                    from <= m <= head && #[trigger] canonical_root(view, m) is Some
                        && tv.snapshots.contains_key(canonical_root(view, m)->0)
                        && tv.snapshots[canonical_root(view, m)->0].contains(node),
        decreases head - n,
    {
        let ghost before = protected@;
        match root_at(chain, n) {
            Some(root) => match trie.snapshots.get(&root) {
                Some(nodes) => {
                    assert(tv.snapshots[root] == nodes@);
                    let mut i: usize = 0;
                    while i < nodes.len()
                        invariant
                            i <= nodes@.len(),
                            forall|node: ShellHash| #[trigger]
                                protected@.contains_key(node) <==> before.contains_key(node)
                                    || nodes@.take(i as int).contains(node),
                        decreases nodes.len() - i,
                    {
                        let ghost mid = protected@;
                        protected.insert(nodes[i], ());
                        proof {
                            let shorter = nodes@.take(i as int);
                            let longer = nodes@.take(i + 1);
                            assert forall|node: ShellHash| #[trigger]
                                protected@.contains_key(node) <==> before.contains_key(node)
                                    || longer.contains(node) by {
                                assert(mid.contains_key(node) <==> before.contains_key(node)
                                    || shorter.contains(node));
                                if shorter.contains(node) {
                                    let j = choose|j: int| 0 <= j < shorter.len() && shorter[j] == node;
                                    assert(longer[j] == node);
                                }
                                if longer.contains(node) {
                                    let j = choose|j: int| 0 <= j < longer.len() && longer[j] == node;
                                    if j < i {
                                        assert(shorter[j] == node);
                                    }
                                }
                                if node == nodes@[i as int] {
                                    assert(longer[i as int] == node);
                                }
                            }
                        }
                        i += 1;
                    }
                    assert(nodes@.take(i as int) =~= nodes@);
                },
                None => {
                    assert(!tv.snapshots.contains_key(root));
                    return Err(NodeError::StateUnavailable { root });
                },
            },
            None => {},
        }
        proof {
            assert forall|node: ShellHash| #[trigger]
                protected@.contains_key(node) <==> exists|m: u64|
                    from <= m <= n && #[trigger] canonical_root(view, m) is Some
                        && tv.snapshots.contains_key(canonical_root(view, m)->0)
                        && tv.snapshots[canonical_root(view, m)->0].contains(node) by {
                assert(before.contains_key(node) <==> exists|m: u64|
                    from <= m < n && #[trigger] canonical_root(view, m) is Some
                        && tv.snapshots.contains_key(canonical_root(view, m)->0)
                        && tv.snapshots[canonical_root(view, m)->0].contains(node));
                let here = canonical_root(view, n);
            }
            assert(first_unknown(view, tv, n + 1, head) == first_unknown(view, tv, n as int, head));
        }
        if n == head {
            break ;
        }
        n += 1;
    }
    proof {
        let spec = protected_nodes(view, tv, keep_below, head);
        assert forall|node: ShellHash| #[trigger] protected@.dom().contains(node) <==> spec.contains(node) by {
            assert(protected@.contains_key(node) == protected@.dom().contains(node));
            if protected@.contains_key(node) {
                let m = choose|m: u64|
                    from <= m <= head && #[trigger] canonical_root(view, m) is Some
                        && tv.snapshots.contains_key(canonical_root(view, m)->0)
                        && tv.snapshots[canonical_root(view, m)->0].contains(node);
                let root = canonical_root(view, m)->0;
                assert(is_retained(view, keep_below, head, root));
                assert(tv.snapshots[root].contains(node));
            }
            if spec.contains(node) {
                let root = choose|root: ShellHash|
                    is_retained(view, keep_below, head, root) && tv.snapshots.contains_key(root)
                        && #[trigger] tv.snapshots[root].contains(node);
                let m = choose|m: u64|
                    window_start(keep_below, head) <= m <= head && #[trigger] canonical_root(view, m)
                        == Some(root);
                assert(canonical_root(view, m) is Some);
            }
        }
        assert(protected@.dom() =~= spec);
    }
    Ok(protected)
}

/// Deletes trie nodes of the canonical state snapshots older than `keep_below_block`, while
/// preserving every node still reachable from a retained state root.
///
/// Only the rolling profile prunes. The retained states are those of the canonical blocks from
/// `keep_below_block`, or from the head where that is lower, up to the head.
pub fn prune_state_trie(
    chain: &ChainStore,
    trie: &mut TrieStore,
    keep_below_block: u64,
    profile: StorageProfile,
) -> (r: Result<StateTriePruneResult, NodeError>)
    ensures
        final(trie)@.snapshots == old(trie)@.snapshots,
        !prunes(chain@, keep_below_block, profile) ==> final(trie)@ == old(trie)@ && r == Ok::<
            StateTriePruneResult,
            NodeError,
        >(StateTriePruneResult { pruned_roots: 0, deleted_nodes: 0, skipped_roots: 0 }),
        prunes(chain@, keep_below_block, profile) ==> {
            let head = chain@.head_block()->0.header.number;
            let roots = roots_below(chain@, keep_below_block as nat);
            match first_unknown(
                chain@,
                old(trie)@,
                window_start(keep_below_block, head) as int,
                head,
            ) {
                Some(root) => final(trie)@ == old(trie)@ && r == Err::<
                    StateTriePruneResult,
                    NodeError,
                >(NodeError::StateUnavailable { root }),
                None => r is Ok && (final(trie)@.nodes, r->Ok_0) == pruned(
                    old(trie)@,
                    protected_nodes(chain@, old(trie)@, keep_below_block, head),
                    roots,
                    roots.len(),
                ),
            }
        },
{
    let mut result = StateTriePruneResult { pruned_roots: 0, deleted_nodes: 0, skipped_roots: 0 };
    if keep_below_block == 0 || profile != StorageProfile::Light {
        return Ok(result);
    }
    let head: u64 = match chain.get_head_block() {
        Some(block) => block.header.number,
        None => {
            return Ok(result);
        },
    };
    let protected = match collect_protected(chain, &*trie, keep_below_block, head) {
        Ok(protected) => protected,
        Err(e) => {
            return Err(e);
        },
    };
    let roots = collect_roots_below(chain, keep_below_block);
    let ghost start = trie@;
    let ghost kept = protected@.dom();
    let mut seen: Vec<ShellHash> = Vec::new();
    let mut k: usize = 0;
    while k < roots.len()
        invariant
            k <= roots@.len(),
            kept == protected@.dom(),
            trie@.snapshots == start.snapshots,
            (trie@.nodes, result) == pruned(start, kept, roots@, k as nat),
            seen@ == roots@.take(k as int),
        decreases roots.len() - k,
    {
        let root = roots[k];
        if !crate::reorg::contains_hash(&seen, &root) {
            let deleted: u64 = trie.delete_snapshot(&root, &protected);
            if deleted > 0 {
                result.pruned_roots = result.pruned_roots.saturating_add(1);
                result.deleted_nodes = result.deleted_nodes.saturating_add(deleted);
            } else {
                result.skipped_roots = result.skipped_roots.saturating_add(1);
            }
        }
        seen.push(root);
        assert(seen@ =~= roots@.take(k + 1));
        k += 1;
    }
    Ok(result)
}

/// Which nodes a prune pass leaves: exactly those that were stored and that no pruned root reaches
/// unprotected.
pub proof fn lemma_pruned_nodes(
    trie: TrieView,
    protected: Set<ShellHash>,
    roots: Seq<ShellHash>,
    k: nat,
)
    requires
        k <= roots.len(),
    ensures
        forall|node: ShellHash| #[trigger]
            pruned(trie, protected, roots, k).0.contains(node) <==> trie.nodes.contains(node) && !(
            exists|i: int|
                0 <= i < k && deletable(trie.snapshots, protected, #[trigger] roots[i]).contains(node)),
    decreases k,
{
    if k > 0 {
        lemma_pruned_nodes(trie, protected, roots, (k - 1) as nat);
        let root = roots[k - 1];
        let before = pruned(trie, protected, roots, (k - 1) as nat).0;
        let after = pruned(trie, protected, roots, k).0;
        assert forall|node: ShellHash| #[trigger] after.contains(node) <==> trie.nodes.contains(node) && !(
        exists|i: int|
            0 <= i < k && deletable(trie.snapshots, protected, #[trigger] roots[i]).contains(node)) by {
            assert(before.contains(node) <==> trie.nodes.contains(node) && !(exists|i: int|
                0 <= i < k - 1 && deletable(trie.snapshots, protected, #[trigger] roots[i]).contains(node)));
            if roots.take(k - 1).contains(root) {
                let earlier = roots.take(k - 1);
                let j = choose|j: int| 0 <= j < earlier.len() && earlier[j] == root;
                assert(roots[j] == root);
            } else {
                assert(after == before.difference(deletable(trie.snapshots, protected, root)));
            }
        }
    }
}

/// A prune pass never takes a node from a state of the retained window: a retained snapshot that
/// could be read before it can be read after it.
pub proof fn law_retained_states_stay_readable(
    view: ChainView,
    trie: TrieView,
    keep_below: u64,
    head: u64,
    root: ShellHash,
)
    requires
        is_retained(view, keep_below, head, root),
        trie.readable(root),
    ensures
        ({
            let roots = roots_below(view, keep_below as nat);
            let protected = protected_nodes(view, trie, keep_below, head);
            (TrieView { nodes: pruned(trie, protected, roots, roots.len()).0, ..trie }).readable(root)
        }),
{
    let roots = roots_below(view, keep_below as nat);
    let protected = protected_nodes(view, trie, keep_below, head);
    lemma_pruned_nodes(trie, protected, roots, roots.len());
    let left = pruned(trie, protected, roots, roots.len()).0;
    assert forall|i: int| 0 <= i < trie.snapshots[root].len() implies left.contains(
        #[trigger] trie.snapshots[root][i],
    ) by {
        let node = trie.snapshots[root][i];
        assert(trie.snapshots[root].contains(node));
        assert(protected.contains(node));
    }
}

/// A prune pass reaches every canonical state below the boundary: of a snapshot there, no node
/// stays but those that a retained state reaches too.
pub proof fn law_old_states_are_pruned(
    view: ChainView,
    trie: TrieView,
    keep_below: u64,
    head: u64,
    number: u64,
    node: ShellHash,
)
    requires
        number < keep_below,
        canonical_root(view, number) is Some,
        trie.snapshots.contains_key(canonical_root(view, number)->0),
        trie.snapshots[canonical_root(view, number)->0].contains(node),
        !protected_nodes(view, trie, keep_below, head).contains(node),
    ensures
        ({
            let roots = roots_below(view, keep_below as nat);
            let protected = protected_nodes(view, trie, keep_below, head);
            !pruned(trie, protected, roots, roots.len()).0.contains(node)
        }),
{
    let roots = roots_below(view, keep_below as nat);
    let protected = protected_nodes(view, trie, keep_below, head);
    lemma_pruned_nodes(trie, protected, roots, roots.len());
    lemma_root_listed(view, keep_below as nat, number);
    let root = canonical_root(view, number)->0;
    let i = choose|i: int| 0 <= i < roots.len() && roots[i] == root;
    assert(deletable(trie.snapshots, protected, roots[i]).contains(node));
}

proof fn lemma_root_listed(view: ChainView, end: nat, number: u64)
    requires
        number < end <= u64::MAX,
        canonical_root(view, number) is Some,
    ensures
        roots_below(view, end).contains(canonical_root(view, number)->0),
    decreases end,
{
    let root = canonical_root(view, number)->0;
    let shorter = roots_below(view, (end - 1) as nat);
    let all = roots_below(view, end);
    if number == end - 1 {
        assert(all[all.len() - 1] == root);
    } else {
        lemma_root_listed(view, (end - 1) as nat, number);
        let i = choose|i: int| 0 <= i < shorter.len() && shorter[i] == root;
        assert(all[i] == root);
    }
}

/// A prune pass deletes exactly the nodes that a canonical state below the boundary reaches and that
/// no canonical state of the retained window reaches: the window goes from the boundary, or from the
/// head where that is lower, up to the head.
pub proof fn law_exactly_old_unshared_nodes_go(
    view: ChainView,
    trie: TrieView,
    keep_below: u64,
    head: u64,
    node: ShellHash,
)
    ensures
        ({
            let roots = roots_below(view, keep_below as nat);
            let left = pruned(
                trie,
                protected_nodes(view, trie, keep_below, head),
                roots,
                roots.len(),
            ).0;
            let old = exists|n: u64| n < keep_below && #[trigger] state_reaches(view, trie, n, node);
            let retained = exists|n: u64|
                (n >= keep_below || n >= head) && n <= head && #[trigger] state_reaches(
                    view,
                    trie,
                    n,
                    node,
                );
            left.contains(node) <==> trie.nodes.contains(node) && (!old || retained)
        }),
{
    let roots = roots_below(view, keep_below as nat);
    let protected = protected_nodes(view, trie, keep_below, head);
    lemma_pruned_nodes(trie, protected, roots, roots.len());
    let old = exists|n: u64| n < keep_below && #[trigger] state_reaches(view, trie, n, node);
    let retained = exists|n: u64|
        (n >= keep_below || n >= head) && n <= head && #[trigger] state_reaches(
            view,
            trie,
            n,
            node,
        );
    if retained {
        let n = choose|n: u64|
            (n >= keep_below || n >= head) && n <= head && #[trigger] state_reaches(
                view,
                trie,
                n,
                node,
            );
        let root = canonical_root(view, n)->0;
        assert(canonical_root(view, n) == Some(root));
        assert(is_retained(view, keep_below, head, root));
        assert(trie.snapshots[root].contains(node));
        assert(protected.contains(node));
    }
    if protected.contains(node) {
        let root = choose|root: ShellHash|
            is_retained(view, keep_below, head, root) && trie.snapshots.contains_key(root)
                && #[trigger] trie.snapshots[root].contains(node);
        let n = choose|n: u64|
            window_start(keep_below, head) <= n <= head && #[trigger] canonical_root(view, n)
                == Some(root);
        assert(state_reaches(view, trie, n, node));
    }
    if old {
        let n = choose|n: u64| n < keep_below && #[trigger] state_reaches(view, trie, n, node);
        lemma_root_listed(view, keep_below as nat, n);
        let root = canonical_root(view, n)->0;
        let i = choose|i: int| 0 <= i < roots.len() && roots[i] == root;
        assert(roots[i] == root);
        assert(deletable(trie.snapshots, protected, roots[i]).contains(node)
            <==> !protected.contains(node));
    }
    if exists|i: int|
        0 <= i < roots.len() && deletable(trie.snapshots, protected, #[trigger] roots[i]).contains(
            node,
        ) {
        let i = choose|i: int|
            0 <= i < roots.len() && deletable(
                trie.snapshots,
                protected,
                #[trigger] roots[i],
            ).contains(node);
        let n = lemma_listed_root(view, keep_below as nat, i);
        assert(state_reaches(view, trie, n, node));
    }
}

/// Whether the state of the canonical block of a height reaches a node.
pub open spec fn state_reaches(view: ChainView, trie: TrieView, number: u64, node: ShellHash) -> bool {
    &&& view.canonical.contains_key(number)
    &&& view.headers.contains_key(view.canonical[number])
    &&& trie.snapshots.contains_key(view.headers[view.canonical[number]].state_root)
    &&& trie.snapshots[view.headers[view.canonical[number]].state_root].contains(node)
}

proof fn lemma_listed_root(view: ChainView, end: nat, i: int) -> (n: u64)
    requires
        end <= u64::MAX,
        0 <= i < roots_below(view, end).len(),
    ensures
        n < end,
        canonical_root(view, n) == Some(roots_below(view, end)[i]),
    decreases end,
{
    let shorter = roots_below(view, (end - 1) as nat);
    if i < shorter.len() {
        lemma_listed_root(view, (end - 1) as nat, i)
    } else {
        (end - 1) as u64
    }
}

/// A prune pass is refused exactly when some canonical state of the retained window has no known
/// snapshot, and names the state of the lowest such height.
pub proof fn law_unknown_retained_states_stop_pruning(
    view: ChainView,
    trie: TrieView,
    from: u64,
    head: u64,
)
    requires
        from <= head,
    ensures
        first_unknown(view, trie, from as int, head) is None <==> forall|n: u64|
            from <= n <= head && view.canonical.contains_key(n) && view.headers.contains_key(
                #[trigger] view.canonical[n],
            ) ==> trie.snapshots.contains_key(view.headers[view.canonical[n]].state_root),
        first_unknown(view, trie, from as int, head) matches Some(root) ==> exists|n: u64|
            from <= n <= head && view.canonical.contains_key(n) && view.headers.contains_key(
                #[trigger] view.canonical[n],
            ) && view.headers[view.canonical[n]].state_root == root && !trie.snapshots.contains_key(
                root,
            ),
    decreases head - from,
{
    let here = view.canonical[from];
    if from < head {
        law_unknown_retained_states_stop_pruning(view, trie, (from + 1) as u64, head);
        assert(first_unknown(view, trie, from + 1, head) == first_unknown(
            view,
            trie,
            ((from + 1) as u64) as int,
            head,
        ));
        if first_unknown(view, trie, from as int, head) is None {
            assert forall|n: u64|
                from <= n <= head && view.canonical.contains_key(n) && view.headers.contains_key(
                    #[trigger] view.canonical[n],
                ) implies trie.snapshots.contains_key(
                view.headers[view.canonical[n]].state_root,
            ) by {}
        }
    } else {
        assert(first_unknown(view, trie, from + 1, head) is None);
    }
}

proof fn lemma_counted_deletions(
    trie: TrieView,
    protected: Set<ShellHash>,
    roots: Seq<ShellHash>,
    k: nat,
)
    requires
        k <= roots.len(),
        k < u64::MAX,
        trie.nodes.finite(),
        trie.nodes.len() <= u64::MAX,
    ensures
        ({
            let (left, result) = pruned(trie, protected, roots, k);
            &&& left.finite()
            &&& left.subset_of(trie.nodes)
            &&& left.len() + result.deleted_nodes == trie.nodes.len()
            &&& result.pruned_roots + result.skipped_roots <= k
            &&& result.deleted_nodes == 0 <==> result.pruned_roots == 0
            &&& result.pruned_roots + result.skipped_roots == roots.take(k as int).to_set().len()
        }),
    decreases k,
{
    assert(roots.take(k as int).to_set().finite()) by {
        vstd::seq_lib::seq_to_set_is_finite(roots.take(k as int));
    }
    if k == 0 {
        assert(roots.take(0).to_set() =~= Set::empty());
    } else {
        lemma_counted_deletions(trie, protected, roots, (k - 1) as nat);
        let (nodes, result) = pruned(trie, protected, roots, (k - 1) as nat);
        let root = roots[k - 1];
        let fewer = roots.take(k - 1);
        let more = roots.take(k as int);
        assert(more =~= fewer.push(root));
        assert forall|r: ShellHash| more.contains(r) <==> fewer.contains(r) || r == root by {
            if fewer.contains(r) {
                let i = choose|i: int| 0 <= i < fewer.len() && fewer[i] == r;
                assert(more[i] == r);
            }
            assert(more[k - 1] == root);
        }
        vstd::seq_lib::seq_to_set_is_finite(fewer);
        assert(more.to_set() =~= fewer.to_set().insert(root));
        if !fewer.contains(root) {
            let after = nodes.difference(deletable(trie.snapshots, protected, root));
            assert(after.subset_of(nodes));
            vstd::set_lib::lemma_len_subset(after, nodes);
            assert(!fewer.to_set().contains(root));
        } else {
            assert(fewer.to_set().contains(root));
        }
    }
}

/// The summary of a prune pass adds up: what it deleted and what is left are what was there, and
/// every distinct root is counted once, as pruned or as skipped.
pub proof fn law_prune_summary_adds_up(trie: TrieView, protected: Set<ShellHash>, roots: Seq<ShellHash>)
    requires
        roots.len() < u64::MAX,
        trie.nodes.finite(),
        trie.nodes.len() <= u64::MAX,
    ensures
        ({
            let (left, result) = pruned(trie, protected, roots, roots.len());
            &&& left.len() + result.deleted_nodes == trie.nodes.len()
            &&& result.pruned_roots + result.skipped_roots == roots.to_set().len()
            &&& result.deleted_nodes == 0 <==> result.pruned_roots == 0
        }),
{
    lemma_counted_deletions(trie, protected, roots, roots.len());
    assert(roots.take(roots.len() as int) =~= roots);
}

/// A stored snapshot is there with all its nodes, and what was there before stays.
pub proof fn law_stored_snapshots_are_there(
    trie: &mut TrieStore,
    root: ShellHash,
    nodes: Vec<ShellHash>,
    node: ShellHash,
    other: ShellHash,
)
    requires
        call_ensures(TrieStore::add_snapshot, (trie, root, nodes), ()),
    ensures
        final(trie)@.snapshots.contains_key(root),
        final(trie)@.snapshots[root] == nodes@,
        final(trie)@.nodes.contains(node) <==> old(trie)@.nodes.contains(node) || nodes@.contains(
            node,
        ),
        other != root ==> (final(trie)@.snapshots.contains_key(other) <==> old(
            trie,
        )@.snapshots.contains_key(other)),
{
}

/// A prune pass on a rolling-window node deletes exactly the nodes that only states below the boundary
/// reach, and none where a retained state is not known; on any other node it does nothing.
pub proof fn law_what_a_prune_pass_deletes(
    chain: ChainStore,
    trie: &mut TrieStore,
    keep_below: u64,
    profile: StorageProfile,
    outcome: Result<StateTriePruneResult, NodeError>,
    node: ShellHash,
)
    requires
        call_ensures(prune_state_trie, (&chain, trie, keep_below, profile), outcome),
    ensures
        ({
            let head = chain@.head_block()->0.header.number;
            let passes = profile == StorageProfile::Light && keep_below > 0
                && chain@.head_block() is Some;
            let old_state = exists|n: u64|
                n < keep_below && #[trigger] state_reaches(chain@, old(trie)@, n, node);
            let retained = exists|n: u64|
                (n >= keep_below || n >= head) && n <= head && #[trigger] state_reaches(
                    chain@,
                    old(trie)@,
                    n,
                    node,
                );
            &&& passes && outcome is Ok ==> (final(trie)@.nodes.contains(node) <==> old(
                trie,
            )@.nodes.contains(node) && (!old_state || retained))
            &&& !passes || outcome is Err ==> final(trie)@ == old(trie)@
            &&& !passes ==> outcome is Ok
            &&& final(trie)@.snapshots == old(trie)@.snapshots
        }),
{
    let head = chain@.head_block()->0.header.number;
    law_exactly_old_unshared_nodes_go(chain@, old(trie)@, keep_below, head, node);
}

} // verus!
