//! How far back data is kept, and what may be deleted once a block is canonical.

use vstd::prelude::*;

use crate::chain::{ChainStore, ChainView};
use crate::error::StorageError;
use crate::primitives::ShellHash;
use crate::pruning::{PruningConfig, StateRootEntry, StateRootTracker, StorageProfile};
use crate::stark::{StarkState, StarkView};
use crate::text;

verus! {

/// The smaller of two numbers.
pub open spec fn smaller(a: u64, b: u64) -> u64 {
    if a <= b {
        a
    } else {
        b
    }
}

/// The larger of two numbers.
pub open spec fn larger(a: u64, b: u64) -> u64 {
    if a >= b {
        a
    } else {
        b
    }
}

fn min_u64(a: u64, b: u64) -> (r: u64)
    ensures
        r == smaller(a, b),
{
    if a <= b {
        a
    } else {
        b
    }
}

fn max_u64(a: u64, b: u64) -> (r: u64)
    ensures
        r == larger(a, b),
{
    if a >= b {
        a
    } else {
        b
    }
}

/// How many heights keep their canonical mapping: forever where bodies or witnesses are kept
/// forever, else one more than the longest of the body, witness and minimum retention.
pub open spec fn mapping_retention(body_retention: u64, witness_retention: u64) -> u64 {
    if body_retention == 0 || witness_retention == 0 {
        u64::MAX
    } else {
        let longest = larger(larger(body_retention, witness_retention), 128);
        if longest == u64::MAX {
            u64::MAX
        } else {
            (longest + 1) as u64
        }
    }
}

/// The number of heights whose canonical mapping is retained.
pub fn canonical_mapping_retention(body_retention: u64, witness_retention: u64) -> (r: u64)
    ensures
        r == mapping_retention(body_retention, witness_retention),
{
    if body_retention == 0 || witness_retention == 0 {
        return u64::MAX;
    }
    max_u64(max_u64(body_retention, witness_retention), 128).saturating_add(1)
}

/// The height below which canonical mappings may go: no higher than the finalized height or than
/// what any pruner that depends on the mappings has finished.
pub open spec fn mapping_boundary(
    finalized: u64,
    body_below: u64,
    witness_below: u64,
    trie_below: Option<u64>,
) -> u64 {
    let dependent = smaller(smaller(finalized, body_below), witness_below);
    match trie_below {
        Some(trie) => smaller(dependent, trie),
        None => dependent,
    }
}

/// The height below which canonical mappings may be deleted.
pub fn canonical_mapping_prune_boundary(
    finalized_number: u64,
    body_pruned_below: u64,
    witness_pruned_below: u64,
    state_trie_pruned_below: Option<u64>,
) -> (r: u64)
    ensures
        r == mapping_boundary(
            finalized_number,
            body_pruned_below,
            witness_pruned_below,
            state_trie_pruned_below,
        ),
{
    let dependent: u64 = min_u64(
        min_u64(finalized_number, body_pruned_below),
        witness_pruned_below,
    );
    match state_trie_pruned_below {
        Some(trie) => min_u64(dependent, trie),
        None => dependent,
    }
}

/// The lowest of the `keep` most recent heights up to a height, or the first height where there are
/// no more than `keep`.
pub open spec fn cutoff(number: u64, keep: u64) -> int {
    if keep > number {
        0
    } else {
        number - keep + 1
    }
}

/// The height below which data falls out of a window of `keep` heights that ends at `number`.
pub fn retention_cutoff(number: u64, keep: u64) -> (r: u64)
    requires
        keep > 0,
    ensures
        r == cutoff(number, keep),
{
    if keep > number {
        0
    } else {
        number - keep + 1
    }
}

/// The boundary of a state-trie prune pass, if there is one to make.
pub open spec fn trie_boundary(finalized: u64, keep_recent: u64) -> Option<u64> {
    if finalized == 0 || keep_recent == 0 || cutoff(finalized, keep_recent) == 0 {
        None
    } else {
        Some(cutoff(finalized, keep_recent) as u64)
    }
}

/// The height below which state snapshots may be pruned, counted from the finalized height; none
/// where nothing is final, where every state is kept, or where no state is old enough.
pub fn state_trie_prune_boundary(finalized_number: u64, keep_recent: u64) -> (r: Option<u64>)
    ensures
        r == trie_boundary(finalized_number, keep_recent),
{
    if finalized_number == 0 || keep_recent == 0 {
        return None;
    }
    let boundary: u64 = retention_cutoff(finalized_number, keep_recent);
    if boundary > 0 {
        Some(boundary)
    } else {
        None
    }
}

/// What follows from recording the state root of a canonical block.
#[derive(Debug, Clone, Copy)]
pub struct StateRootStep {
    /// The height up to which the chain is final.
    pub finalized_number: u64,
    /// The entry that left the history, if one did.
    pub evicted: Option<StateRootEntry>,
    /// Prune the state snapshots below this height.
    pub prune_keep_below: Option<u64>,
    /// Prune witness bundles below the finalized height, as far as their sources are settled.
    pub prune_witnesses: bool,
    /// Prune bodies below the finalized height.
    pub prune_bodies: bool,
}

/// The height up to which the chain is final: the stored one or the one in memory, whichever is
/// higher. A stored height that cannot be read counts as none.
pub open spec fn effective_finalized(
    stored: Result<Option<u64>, StorageError>,
    in_memory: u64,
) -> u64 {
    match stored {
        Ok(Some(n)) => larger(n, in_memory),
        _ => in_memory,
    }
}

/// Records a canonical state root, and decides what to prune.
///
/// Bodies and witness bundles are pruned up to the finalized height unless they are kept forever.
/// Snapshots are pruned when an entry leaves the history of a rolling-window node, and only below
/// the window that ends at the finalized height.
pub fn record_canonical_state_root(
    tracker: &mut StateRootTracker,
    block_number: u64,
    state_root: ShellHash,
    stored_finalized: &Result<Option<u64>, StorageError>,
    finality_number: u64,
) -> (r: StateRootStep)
    ensures
        final(tracker).settings() == old(tracker).settings(),
        ({
            let config = old(tracker).settings();
            let longer = old(tracker)@.push(StateRootEntry { block_number, state_root });
            let full = longer.len() > config.tracked_limit();
            let rolling = StorageProfile::of_config(config) == StorageProfile::Light
                && config.keep_recent > 0;
            &&& r.finalized_number == effective_finalized(*stored_finalized, finality_number)
            &&& final(tracker)@ == if full {
                longer.drop_first()
            } else {
                longer
            }
            &&& r.evicted == if full {
                Some(longer[0])
            } else {
                None
            }
            &&& r.prune_keep_below == if full && rolling {
                trie_boundary(r.finalized_number, config.keep_recent)
            } else {
                None
            }
            &&& r.prune_witnesses == (config.witness_retention > 0)
            &&& r.prune_bodies == (config.body_retention > 0)
        }),
        old(tracker).bounded() ==> final(tracker).bounded(),
{
    let config: PruningConfig = *tracker.config();
    let stored: u64 = match stored_finalized {
        Ok(Some(n)) => *n,
        _ => 0,
    };
    let finalized_number: u64 = max_u64(stored, finality_number);
    let evicted = tracker.record(block_number, state_root);
    let profile = StorageProfile::from_pruning_config(&config);
    let prune_keep_below: Option<u64> = if evicted.is_some() && profile == StorageProfile::Light
        && config.keep_recent > 0 {
        state_trie_prune_boundary(finalized_number, config.keep_recent)
    } else {
        None
    };
    StateRootStep {
        finalized_number,
        evicted,
        prune_keep_below,
        prune_witnesses: config.witness_retention > 0,
        prune_bodies: config.body_retention > 0,
    }
}

/// The height below which bodies may be pruned: that of the window which ends at the finalized
/// height, and never lower than it was. Bodies that are kept forever leave it where it was.
pub open spec fn body_boundary(pruned_below: u64, finalized: u64, retention: u64) -> u64 {
    if retention == 0 {
        pruned_below
    } else {
        larger(pruned_below, cutoff(finalized, retention) as u64)
    }
}

/// The height below which bodies may be pruned.
pub fn body_prune_boundary(pruned_below: u64, finalized_number: u64, body_retention: u64) -> (r: u64)
    ensures
        r == body_boundary(pruned_below, finalized_number, body_retention),
{
    if body_retention == 0 {
        pruned_below
    } else {
        max_u64(pruned_below, retention_cutoff(finalized_number, body_retention))
    }
}

/// Whether the canonical block of a height is known and settled at the first layer.
pub open spec fn is_settled_height(chain: ChainView, stark: StarkView, number: u64) -> bool {
    chain.canonical.contains_key(number) && stark.settled.contains(
        crate::stark::at_layer(1, chain.canonical[number]),
    )
}

/// The first height from `number` on that is not settled, or `end`.
pub open spec fn settled_until(chain: ChainView, stark: StarkView, number: int, end: u64) -> u64
    decreases end - number,
{
    if number >= end {
        end
    } else if is_settled_height(chain, stark, number as u64) {
        settled_until(chain, stark, number + 1, end)
    } else {
        number as u64
    }
}

/// The height below which witness bundles may be pruned: as for bodies, but no further than the
/// first canonical block that no settled proof covers.
pub fn witness_prune_boundary(
    chain: &ChainStore,
    stark: &StarkState,
    pruned_below: u64,
    finalized_number: u64,
    witness_retention: u64,
) -> (r: u64)
    ensures
        r == settled_until(
            chain@,
            stark@,
            pruned_below as int,
            body_boundary(pruned_below, finalized_number, witness_retention),
        ),
{
    let end: u64 = body_prune_boundary(pruned_below, finalized_number, witness_retention);
    let mut number: u64 = pruned_below;
    while number < end
        invariant
            number <= end,
            end == body_boundary(pruned_below, finalized_number, witness_retention),
            settled_until(chain@, stark@, pruned_below as int, end) == settled_until(
                chain@,
                stark@,
                number as int,
                end,
            ),
        decreases end - number,
    {
        match chain.get_block_hash_by_number(number) {
            Some(hash) => {
                if !stark.has_settled_source(1, hash) {
                    return number;
                }
            },
            None => {
                return number;
            },
        }
        number += 1;
    }
    number
}

/// Where the pruners that depend on canonical mappings stand.
#[derive(Debug, Clone, Copy)]
pub struct PrunerCursors {
    /// Bodies below this height have been handled.
    pub body_pruned_below: u64,
    /// Witness bundles below this height have been handled.
    pub witness_pruned_below: u64,
    /// State snapshots below this height have been handled; `None` where the cursor could not be
    /// read.
    pub trie_pruned_below: Option<u64>,
}

/// What the cleanup of canonical mappings does for one block.
#[derive(Debug, Clone, Copy, PartialEq, Eq)]
pub struct MappingCleanup {
    /// Register this root as the one of the genesis state.
    pub register_genesis: Option<ShellHash>,
    /// Delete canonical mappings below this height.
    pub prune_below: Option<u64>,
}

/// The state root of the genesis block, where its mapping and header are known and the header
/// reports height zero.
pub open spec fn genesis_root(view: ChainView) -> Option<ShellHash> {
    if view.canonical.contains_key(0) && view.headers.contains_key(view.canonical[0])
        && view.headers[view.canonical[0]].number == 0 {
        Some(view.headers[view.canonical[0]].state_root)
    } else {
        None
    }
}

/// The cleanup that the state of the pruners calls for.
pub open spec fn mapping_cleanup(
    view: ChainView,
    config: PruningConfig,
    cursors: PrunerCursors,
    finalized: u64,
    registered_genesis: Option<ShellHash>,
    due: bool,
) -> MappingCleanup {
    let rolling = StorageProfile::of_config(config) == StorageProfile::Light && config.keep_recent
        > 0;
    let trie_below = if !rolling {
        None
    } else if cursors.trie_pruned_below is None {
        Some(0u64)
    } else {
        cursors.trie_pruned_below
    };
    let prune = finalized > 0 && due;
    let genesis_known = match registered_genesis {
        Some(root) => !prune || genesis_root(view) == Some(root),
        None => genesis_root(view) is Some,
    };
    MappingCleanup {
        register_genesis: if registered_genesis is None {
            genesis_root(view)
        } else {
            None
        },
        prune_below: if prune && genesis_known {
            Some(
                mapping_boundary(
                    finalized,
                    cursors.body_pruned_below,
                    cursors.witness_pruned_below,
                    trie_below,
                ),
            )
        } else {
            None
        },
    }
}

/// Decides which canonical mappings to delete after the dependent pruners have run.
///
/// Mappings are needed to resume body, witness and state pruning, so their cleanup never overtakes
/// those. Nothing is deleted while nothing is final, and nothing when the genesis state cannot be
/// confirmed; `due` says whether the mapping pruner wants to run at this block.
pub fn canonical_cleanup(
    chain: &ChainStore,
    config: &PruningConfig,
    cursors: PrunerCursors,
    finalized_number: u64,
    registered_genesis: Option<ShellHash>,
    due: bool,
) -> (r: MappingCleanup)
    ensures
        r == mapping_cleanup(
            chain@,
            *config,
            cursors,
            finalized_number,
            registered_genesis,
            due,
        ),
{
    let rolling: bool = StorageProfile::from_pruning_config(config) == StorageProfile::Light
        && config.keep_recent > 0;
    let trie_below: Option<u64> = if rolling {
        Some(cursors.trie_pruned_below.unwrap_or(0))
    } else {
        None
    };
    let boundary: u64 = canonical_mapping_prune_boundary(
        finalized_number,
        cursors.body_pruned_below,
        cursors.witness_pruned_below,
        trie_below,
    );
    let prune: bool = finalized_number > 0 && due;
    let actual: Option<ShellHash> = match chain.get_block_hash_by_number(0) {
        Some(hash) => match chain.get_header_by_hash(&hash) {
            Some(header) => if header.number == 0 {
                Some(header.state_root)
            } else {
                None
            },
            None => None,
        },
        None => None,
    };
    let known: bool = match registered_genesis {
        Some(root) => !prune || actual == Some(root),
        None => actual.is_some(),
    };
    MappingCleanup {
        register_genesis: if registered_genesis.is_none() {
            actual
        } else {
            None
        },
        prune_below: if prune && known {
            Some(boundary)
        } else {
            None
        },
    }
}

/// The state of the root history, as reported now and then.
#[derive(Debug, Clone, Copy, PartialEq, Eq)]
pub struct StateRootStatus {
    /// Entries in the history.
    pub entries: usize,
    /// Height of the oldest entry, or zero.
    pub oldest_block: u64,
    /// Whether roots are never evicted.
    pub archive: bool,
}

/// The status to report after a block: one every 64 blocks.
pub fn state_root_status(tracker: &StateRootTracker, block_number: u64) -> (r: Option<
    StateRootStatus,
>)
    ensures
        r == if block_number > 0 && block_number % 64 == 0 {
            Some(
                StateRootStatus {
                    entries: tracker@.len() as usize,
                    oldest_block: if tracker@.len() > 0 {
                        tracker@.first().block_number
                    } else {
                        0
                    },
                    archive: tracker.settings().keep_recent == 0,
                },
            )
        } else {
            None
        },
{
    if block_number > 0 && block_number % 64 == 0 {
        let oldest_block: u64 = match tracker.oldest() {
            Some(entry) => entry.block_number,
            None => 0,
        };
        Some(
            StateRootStatus {
                entries: tracker.len(),
                oldest_block,
                archive: tracker.config().is_archive(),
            },
        )
    } else {
        None
    }
}

/// `keep-` and a number of blocks.
pub open spec fn keep_text(n: u64) -> Seq<char> {
    "keep-"@ + text::decimal(n as nat)
}

/// How the banner shows the retention of state roots.
pub open spec fn state_text(p: PruningConfig) -> Seq<char> {
    if p.keep_recent == 0 {
        "archive"@
    } else if StorageProfile::of_config(p) == StorageProfile::Light {
        keep_text(p.keep_recent) + " (pruned)"@
    } else {
        keep_text(p.keep_recent)
    }
}

/// How the banner shows the retention of bodies.
pub open spec fn body_text(p: PruningConfig) -> Seq<char> {
    if p.body_retention == 0 {
        "archive"@
    } else {
        keep_text(p.body_retention)
    }
}

/// How the banner shows the retention of witnesses.
pub open spec fn witness_text(p: PruningConfig, stark: bool) -> Seq<char> {
    if p.witness_retention != 0 {
        keep_text(p.witness_retention)
    } else if p.proof_replacement_grace == u64::MAX {
        "archive (never replaced)"@
    } else if stark {
        "replaced-by-proof"@
    } else {
        "archive"@
    }
}

/// How the banner shows what proofs do to witnesses.
pub open spec fn stark_text(p: PruningConfig, stark: bool) -> Seq<char> {
    if !stark {
        "STARK: disabled"@
    } else if p.proof_replacement_grace == u64::MAX {
        "STARK: enabled  (archive — witnesses kept after proof)"@
    } else if p.proof_replacement_grace == 0 {
        "STARK: enabled  (witnesses replaced immediately after proof commit)"@
    } else {
        "STARK: enabled  (grace="@ + text::decimal(p.proof_replacement_grace as nat)
            + " blocks before witness deletion)"@
    }
}

/// The line of the banner that names the retention policies.
pub open spec fn policy_line(p: PruningConfig, stark: bool) -> Seq<char> {
    "║  profile="@ + StorageProfile::of_config(p).name() + "  state="@ + state_text(p)
        + "  bodies="@ + body_text(p) + "  witnesses="@ + witness_text(p, stark)
}

fn push_keep(out: &mut String, n: u64)
    ensures
        final(out)@ == old(out)@ + keep_text(n),
{
    out.append("keep-");
    text::push_decimal(out, n);
    assert(out@ =~= old(out)@ + keep_text(n));
}

/// The three lines of the startup banner, which say what data the node will retain: its title, the
/// retention policies, and what proofs do to witnesses.
pub fn pruning_banner(p: &PruningConfig, enable_stark_aggregation: bool) -> (r: Vec<String>)
    ensures
        r@.len() == 3,
        r@[0]@ == "╔═══ Shell Chain — Storage Policy ══════════════════════════════╗"@,
        r@[1]@ == policy_line(*p, enable_stark_aggregation),
        r@[2]@ == "║  "@ + stark_text(*p, enable_stark_aggregation),
{
    let profile = StorageProfile::from_pruning_config(p);
    let mut policy = "║  profile=".to_owned();
    policy.append(profile.as_str());
    policy.append("  state=");
    let ghost before_state = policy@;
    if p.keep_recent == 0 {
        policy.append("archive");
    } else {
        push_keep(&mut policy, p.keep_recent);
        if profile == StorageProfile::Light {
            policy.append(" (pruned)");
        }
    }
    assert(policy@ =~= before_state + state_text(*p));
    policy.append("  bodies=");
    let ghost before_body = policy@;
    if p.body_retention == 0 {
        policy.append("archive");
    } else {
        push_keep(&mut policy, p.body_retention);
    }
    assert(policy@ =~= before_body + body_text(*p));
    policy.append("  witnesses=");
    let ghost before_witness = policy@;
    if p.witness_retention != 0 {
        push_keep(&mut policy, p.witness_retention);
    } else if p.proof_replacement_grace == u64::MAX {
        policy.append("archive (never replaced)");
    } else if enable_stark_aggregation {
        policy.append("replaced-by-proof");
    } else {
        policy.append("archive");
    }
    assert(policy@ =~= before_witness + witness_text(*p, enable_stark_aggregation));
    let mut stark = "║  ".to_owned();
    let ghost before_stark = stark@;
    if !enable_stark_aggregation {
        stark.append("STARK: disabled");
    } else if p.proof_replacement_grace == u64::MAX {
        stark.append("STARK: enabled  (archive — witnesses kept after proof)");
    } else if p.proof_replacement_grace == 0 {
        stark.append("STARK: enabled  (witnesses replaced immediately after proof commit)");
    } else {
        stark.append("STARK: enabled  (grace=");
        text::push_decimal(&mut stark, p.proof_replacement_grace);
        stark.append(" blocks before witness deletion)");
    }
    assert(stark@ =~= before_stark + stark_text(*p, enable_stark_aggregation));
    let mut lines: Vec<String> = Vec::new();
    lines.push("╔═══ Shell Chain — Storage Policy ══════════════════════════════╗".to_owned());
    lines.push(policy);
    lines.push(stark);
    lines
}

/// Canonical mappings outlive the bodies and witnesses that need them: they are kept for longer than
/// either, and never given up where one of the two is kept forever.
pub proof fn law_mappings_outlive_dependents(body_retention: u64, witness_retention: u64)
    ensures
        ({
            let kept = mapping_retention(body_retention, witness_retention);
            &&& kept == u64::MAX || (kept > body_retention && kept > witness_retention && kept > 128)
            &&& body_retention == 0 || witness_retention == 0 ==> kept == u64::MAX
        }),
{
}

/// The cleanup of canonical mappings overtakes neither finality nor any dependent pruner, and holds
/// back no further than the slowest of them.
pub proof fn law_mapping_boundary_waits(
    finalized: u64,
    body_below: u64,
    witness_below: u64,
    trie_below: Option<u64>,
)
    ensures
        ({
            let boundary = mapping_boundary(finalized, body_below, witness_below, trie_below);
            &&& boundary <= finalized
            &&& boundary <= body_below
            &&& boundary <= witness_below
            &&& trie_below matches Some(trie) ==> boundary <= trie
            &&& boundary == finalized || boundary == body_below || boundary == witness_below
                || trie_below == Some(boundary)
        }),
{
}

/// State pruning is bounded by finality: the boundary never exceeds the finalized height, and the
/// heights from it up to the finalized one are as many as are to be kept.
pub proof fn law_trie_boundary_keeps_window(finalized: u64, keep_recent: u64)
    ensures
        trie_boundary(finalized, keep_recent) matches Some(boundary) ==> {
            &&& 0 < boundary <= finalized
            &&& finalized - boundary + 1 == keep_recent
        },
        trie_boundary(finalized, keep_recent) is None <==> finalized == 0 || keep_recent == 0
            || keep_recent > finalized,
{
}

/// Witness bundles are pruned only where a settled proof stands in for them: every height that a
/// pass may prune has a canonical block that is settled at the first layer.
pub proof fn law_witnesses_outlive_settlement(
    chain: ChainView,
    stark: StarkView,
    from: u64,
    end: u64,
    number: u64,
)
    requires
        from <= number < settled_until(chain, stark, from as int, end),
    ensures
        is_settled_height(chain, stark, number),
    decreases number - from,
{
    if from < end && from < number {
        law_witnesses_outlive_settlement(chain, stark, (from + 1) as u64, end, number);
    }
}

/// Bodies and witness bundles keep their window: the boundary never goes back, leaves at least
/// `retention` heights up to the finalized one where it has not gone further before, and leaves no
/// more than that. Where they are kept forever it stays where it is.
pub proof fn law_boundary_keeps_the_retained_window(pruned_below: u64, finalized: u64, retention: u64)
    ensures
        ({
            let boundary = body_boundary(pruned_below, finalized, retention);
            &&& retention == 0 ==> boundary == pruned_below
            &&& boundary >= pruned_below
            &&& retention > 0 ==> finalized + 1 - boundary <= retention
            &&& boundary > pruned_below ==> finalized + 1 - boundary == retention
        }),
{
}

/// The lowest height of a window: from it up to `number` there are exactly `keep` heights, or all of
/// them where there are no more.
pub proof fn law_window_holds_as_many_as_are_kept(number: u64, keep: u64)
    requires
        keep > 0,
    ensures
        cutoff(number, keep) >= 0,
        keep <= number ==> number + 1 - cutoff(number, keep) == keep,
        keep > number ==> cutoff(number, keep) == 0,
{
}

/// Witness pruning stops at the first height, from where it stood, whose canonical block is missing
/// or not settled at the first layer, and nowhere before the end of its range.
pub proof fn law_witness_pruning_stops_at_the_first_unsettled(
    chain: ChainView,
    stark: StarkView,
    from: u64,
    end: u64,
)
    requires
        from <= end,
    ensures
        ({
            let stop = settled_until(chain, stark, from as int, end);
            &&& from <= stop <= end
            &&& forall|n: u64|
                from <= n < stop ==> (#[trigger] chain.canonical.contains_key(n))
                    && stark.settled.contains(
                    crate::stark::LayeredSource { layer: 1, hash: chain.canonical[n] },
                )
            &&& stop < end ==> !(chain.canonical.contains_key(stop) && stark.settled.contains(
                crate::stark::LayeredSource { layer: 1, hash: chain.canonical[stop] },
            ))
        }),
    decreases end - from,
{
    if from < end && is_settled_height(chain, stark, from) {
        law_witness_pruning_stops_at_the_first_unsettled(chain, stark, (from + 1) as u64, end);
    }
}

/// Canonical mappings are kept for exactly one height more than the longest of the body retention,
/// the witness retention and 128 heights.
pub proof fn law_mappings_are_kept_no_longer_than_needed(body_retention: u64, witness_retention: u64)
    requires
        body_retention > 0,
        witness_retention > 0,
        body_retention < u64::MAX,
        witness_retention < u64::MAX,
    ensures
        ({
            let kept = mapping_retention(body_retention, witness_retention);
            kept - 1 == body_retention || kept - 1 == witness_retention || kept - 1 == 128
        }),
{
}

/// The chain counts as final up to the higher of the stored height and the one in memory.
pub proof fn law_higher_finality_counts(stored: u64, in_memory: u64)
    ensures
        ({
            let height = effective_finalized(Ok(Some(stored)), in_memory);
            &&& height >= stored
            &&& height >= in_memory
            &&& height == stored || height == in_memory
        }),
        effective_finalized(Ok(None), in_memory) == in_memory,
        forall|e: StorageError| #[trigger] effective_finalized(Err(e), in_memory) == in_memory,
{
}

/// Mappings are deleted exactly when the pruner is due, something is final, and the genesis state is
/// confirmed: its mapping and its header are known, the header reports height zero, and its root is
/// the registered one where one is registered. Then they go up to the slowest of finality and of the
/// pruners that depend on them; a rolling-window node whose state cursor cannot be read deletes none.
pub proof fn law_mappings_wait_for_genesis_and_pruners(
    view: ChainView,
    config: PruningConfig,
    cursors: PrunerCursors,
    finalized: u64,
    registered: Option<ShellHash>,
    due: bool,
)
    ensures
        ({
            let cleanup = mapping_cleanup(view, config, cursors, finalized, registered, due);
            let header = view.headers[view.canonical[0]];
            let confirmed = view.canonical.contains_key(0) && view.headers.contains_key(
                view.canonical[0],
            ) && header.number == 0 && (registered is Some ==> registered == Some(
                header.state_root,
            ));
            let rolling = StorageProfile::of_config(config) == StorageProfile::Light
                && config.keep_recent > 0;
            &&& cleanup.prune_below is Some <==> due && finalized > 0 && confirmed
            &&& registered is Some ==> cleanup.register_genesis is None
            &&& registered is None ==> (cleanup.register_genesis is Some <==> confirmed)
            &&& cleanup.register_genesis matches Some(root) ==> root == header.state_root
            &&& cleanup.prune_below matches Some(below) ==> {
                &&& below <= finalized
                &&& below <= cursors.body_pruned_below
                &&& below <= cursors.witness_pruned_below
                &&& rolling && cursors.trie_pruned_below is None ==> below == 0
                &&& rolling && cursors.trie_pruned_below is Some ==> below
                    <= cursors.trie_pruned_below->0
                &&& !rolling ==> below == finalized || below == cursors.body_pruned_below || below
                    == cursors.witness_pruned_below
                &&& rolling && cursors.trie_pruned_below is Some ==> below == finalized || below
                    == cursors.body_pruned_below || below == cursors.witness_pruned_below || below
                    == cursors.trie_pruned_below->0
            }
        }),
{
}

/// What is pruned after a state root has been recorded: snapshots exactly if an entry has left the
/// history of a rolling-window node and some state is below the window that ends at the finalized
/// height, bodies and witnesses exactly if they are not kept forever.
pub proof fn law_what_is_pruned_after_a_block(
    tracker: &mut StateRootTracker,
    block_number: u64,
    state_root: ShellHash,
    stored: Result<Option<u64>, StorageError>,
    in_memory: u64,
    step: StateRootStep,
)
    requires
        call_ensures(
            record_canonical_state_root,
            (tracker, block_number, state_root, &stored, in_memory),
            step,
        ),
    ensures
        ({
            let config = old(tracker).settings();
            let rolling = StorageProfile::of_config(config) == StorageProfile::Light
                && config.keep_recent > 0;
            &&& step.prune_bodies <==> config.body_retention > 0
            &&& step.prune_witnesses <==> config.witness_retention > 0
            &&& step.prune_keep_below is Some <==> step.evicted is Some && rolling
                && config.keep_recent <= step.finalized_number
            &&& step.prune_keep_below matches Some(below) ==> below + config.keep_recent
                == step.finalized_number + 1
            &&& step.finalized_number >= in_memory
            &&& stored matches Ok(Some(n)) ==> step.finalized_number >= n && (step.finalized_number
                == n || step.finalized_number == in_memory)
            &&& !(stored matches Ok(Some(_))) ==> step.finalized_number == in_memory
            &&& step.evicted is Some <==> old(tracker)@.len() + 1 > config.tracked_limit()
        }),
{
}

/// The state of the history is reported at every sixty-fourth height, with its length and its lowest
/// height, and at no other.
pub proof fn law_when_the_history_is_reported(
    tracker: StateRootTracker,
    block_number: u64,
    status: Option<StateRootStatus>,
)
    requires
        call_ensures(state_root_status, (&tracker, block_number), status),
        tracker@.len() <= usize::MAX,
    ensures
        status is Some <==> block_number > 0 && block_number % 64 == 0,
        status matches Some(s) ==> {
            &&& s.entries == tracker@.len()
            &&& tracker@.len() > 0 ==> s.oldest_block == tracker@[0].block_number
            &&& tracker@.len() == 0 ==> s.oldest_block == 0
            &&& s.archive <==> tracker.settings().keep_recent == 0
        },
{
}

/// Bodies go up to the height from which on as many final heights are left as are to be kept, never
/// back, and nowhere where they are kept forever; witnesses go no further, and only where they are
/// settled.
pub proof fn law_how_far_pruning_goes(
    chain: ChainStore,
    stark: StarkState,
    pruned_below: u64,
    finalized: u64,
    retention: u64,
    bodies: u64,
    witnesses: u64,
)
    requires
        call_ensures(body_prune_boundary, (pruned_below, finalized, retention), bodies),
        call_ensures(
            witness_prune_boundary,
            (&chain, &stark, pruned_below, finalized, retention),
            witnesses,
        ),
    ensures
        pruned_below <= witnesses <= bodies,
        retention == 0 ==> bodies == pruned_below,
        retention > 0 && pruned_below + retention <= finalized + 1 ==> bodies + retention
            == finalized + 1,
        retention > 0 && pruned_below + retention > finalized + 1 ==> bodies == pruned_below,
        forall|n: u64|
            pruned_below <= n < witnesses ==> (#[trigger] chain@.canonical.contains_key(n))
                && stark@.settled.contains(
                crate::stark::LayeredSource { layer: 1, hash: chain@.canonical[n] },
            ),
{
    law_boundary_keeps_the_retained_window(pruned_below, finalized, retention);
    law_witness_pruning_stops_at_the_first_unsettled(chain@, stark@, pruned_below, bodies);
}

} // verus!
