//! Requests for missing blocks, and rebroadcast of pending transactions.

use vstd::prelude::*;

use crate::chain::SignedTransaction;
use crate::primitives::ShellHash;
use crate::table::Table;

verus! {

/// Seconds between requests while they make progress.
pub const SYNC_RETRY_BASE_INTERVAL_SECS: u64 = 5;

/// Seconds between requests once they have made no progress for a while.
pub const SYNC_RETRY_MAX_INTERVAL_SECS: u64 = 30;

/// Requests without progress before the longer interval applies.
pub const SYNC_RETRY_BACKOFF_THRESHOLD: u32 = 3;

/// Nanoseconds before a transaction is broadcast again.
pub const TX_REBROADCAST_COOLDOWN_NANOS: u64 = 60_000_000_000;

/// The first block that a node lacks: the one after its head, if there can be one.
pub fn next_block_request_start(head_number: u64) -> (r: Option<u64>)
    ensures
        r == if head_number == u64::MAX {
            None
        } else {
            Some((head_number + 1) as u64)
        },
{
    head_number.checked_add(1)
}

/// Records whether a request went out: one that did not leaves nothing in flight.
pub fn record_sync_request_result(
    sent: bool,
    nonce: u64,
    start_number: u64,
    sync_requested: &mut bool,
    sync_request_nonce: &mut Option<u64>,
    sync_request_start: &mut Option<u64>,
) -> (r: bool)
    ensures
        r == sent,
        *final(sync_requested) == sent,
        *final(sync_request_nonce) == if sent {
            Some(nonce)
        } else {
            None
        },
        *final(sync_request_start) == if sent {
            Some(start_number)
        } else {
            None
        },
{
    *sync_requested = sent;
    if sent {
        *sync_request_nonce = Some(nonce);
        *sync_request_start = Some(start_number);
    } else {
        *sync_request_nonce = None;
        *sync_request_start = None;
    }
    sent
}

/// The nonce of a request: that of the active request where it asks for the same range.
pub open spec fn request_nonce(
    active_nonce: Option<u64>,
    active_start: Option<u64>,
    requested_start: u64,
    generated: u64,
) -> u64 {
    match active_nonce {
        Some(nonce) => if active_start == Some(requested_start) {
            nonce
        } else {
            generated
        },
        None => generated,
    }
}

/// The nonce of a request. A retry for the same range keeps its nonce, so that a delayed response
/// remains useful; a request for another range takes a new one.
pub fn stable_sync_request_nonce(
    active_nonce: Option<u64>,
    active_start: Option<u64>,
    requested_start: u64,
    generated: u64,
) -> (r: u64)
    ensures
        r == request_nonce(active_nonce, active_start, requested_start, generated),
{
    match (active_nonce, active_start) {
        (Some(nonce), Some(start)) => if start == requested_start {
            nonce
        } else {
            generated
        },
        _ => generated,
    }
}

/// A request for blocks, one at a time: a signed block can be several megabytes.
#[derive(Clone, Copy, Debug, PartialEq, Eq)]
pub struct BlockRequest {
    /// The first block asked for.
    pub start_number: u64,
    /// How many blocks are asked for.
    pub count: u64,
    /// Ties a response to the request.
    pub nonce: u64,
}

/// The next request for missing blocks.
///
/// At the last possible height there is nothing to request, and no request stays in flight. Else
/// the caller sends the request and hands the outcome to [`record_sync_request_result`].
pub fn request_missing_blocks(
    head_number: u64,
    generated_nonce: u64,
    sync_requested: &mut bool,
    sync_request_nonce: &mut Option<u64>,
    sync_request_start: &mut Option<u64>,
) -> (r: Option<BlockRequest>)
    ensures
        head_number == u64::MAX ==> {
            &&& r is None
            &&& *final(sync_requested) == false
            &&& *final(sync_request_nonce) == None::<u64>
            &&& *final(sync_request_start) == None::<u64>
        },
        head_number < u64::MAX ==> {
            &&& *final(sync_requested) == *old(sync_requested)
            &&& *final(sync_request_nonce) == *old(sync_request_nonce)
            &&& *final(sync_request_start) == *old(sync_request_start)
            &&& r == Some(
                BlockRequest {
                    start_number: (head_number + 1) as u64,
                    count: 1,
                    nonce: request_nonce(
                        *old(sync_request_nonce),
                        *old(sync_request_start),
                        (head_number + 1) as u64,
                        generated_nonce,
                    ),
                },
            )
        },
{
    match next_block_request_start(head_number) {
        Some(start_number) => {
            let nonce: u64 = stable_sync_request_nonce(
                *sync_request_nonce,
                *sync_request_start,
                start_number,
                generated_nonce,
            );
            Some(BlockRequest { start_number, count: 1, nonce })
        },
        None => {
            *sync_requested = false;
            *sync_request_nonce = None;
            *sync_request_start = None;
            None
        },
    }
}

/// Seconds until the next request, by the number of requests that made no progress.
pub fn sync_retry_delay_secs(attempts_without_progress: u32) -> (r: u64)
    ensures
        r == if attempts_without_progress < 3 {
            5u64
        } else {
            30u64
        },
{
    if attempts_without_progress < SYNC_RETRY_BACKOFF_THRESHOLD {
        SYNC_RETRY_BASE_INTERVAL_SECS
    } else {
        SYNC_RETRY_MAX_INTERVAL_SECS
    }
}

/// A number, held between two bounds.
pub open spec fn clamped(n: int, low: int, high: int) -> int {
    if n < low {
        low
    } else if n > high {
        high
    } else {
        n
    }
}

/// Milliseconds that startup waits for synchronization to begin.
pub fn startup_sync_grace(block_time_ms: u64) -> (r: u64)
    ensures
        r == clamped(block_time_ms as int, 2_000, 10_000),
{
    if block_time_ms < 2_000 {
        2_000
    } else if block_time_ms > 10_000 {
        10_000
    } else {
        block_time_ms
    }
}

/// Milliseconds after which catching up is given up: three block times, within bounds.
pub fn catch_up_timeout(block_time_ms: u64) -> (r: u64)
    ensures
        r == clamped(3 * block_time_ms, 10_000, 90_000),
{
    if block_time_ms > 30_000 {
        90_000
    } else if block_time_ms * 3 < 10_000 {
        10_000
    } else {
        block_time_ms * 3
    }
}

/// Whether a moment lies within the cooldown before `now`.
pub open spec fn is_cooling(now: u64, last: u64) -> bool {
    now - last < TX_REBROADCAST_COOLDOWN_NANOS
}

/// The moments that lie within the cooldown.
pub open spec fn still_cooling(seen: Map<ShellHash, u64>, now: u64) -> Map<ShellHash, u64> {
    Map::new(|h: ShellHash| seen.contains_key(h) && is_cooling(now, seen[h]), |h: ShellHash| seen[h])
}

/// The first `n` of some transactions that are not cooling, each once.
pub open spec fn rebroadcast(
    txs: Seq<SignedTransaction>,
    cooling: Map<ShellHash, u64>,
    n: nat,
) -> Seq<SignedTransaction>
    decreases n,
{
    if n == 0 {
        Seq::empty()
    } else {
        let before = rebroadcast(txs, cooling, (n - 1) as nat);
        let hash = txs[n - 1].hash;
        if cooling.contains_key(hash) || crate::chain::hashes_of(txs.take(n - 1)).contains(hash) {
            before
        } else {
            before.push(txs[n - 1])
        }
    }
}

/// The moments of the last broadcast once the first `n` of some transactions have been chosen from.
pub open spec fn seen_after(
    txs: Seq<SignedTransaction>,
    cooling: Map<ShellHash, u64>,
    now: u64,
    n: nat,
) -> Map<ShellHash, u64>
    decreases n,
{
    if n == 0 {
        cooling
    } else {
        let before = seen_after(txs, cooling, now, (n - 1) as nat);
        let hash = txs[n - 1].hash;
        if before.contains_key(hash) {
            before
        } else {
            before.insert(hash, now)
        }
    }
}

proof fn lemma_seen_keys(txs: Seq<SignedTransaction>, cooling: Map<ShellHash, u64>, now: u64, n: nat)
    requires
        n <= txs.len(),
    ensures
        forall|h: ShellHash| #[trigger]
            seen_after(txs, cooling, now, n).contains_key(h) <==> cooling.contains_key(h)
                || crate::chain::hashes_of(txs.take(n as int)).contains(h),
    decreases n,
{
    if n > 0 {
        lemma_seen_keys(txs, cooling, now, (n - 1) as nat);
        let shorter = txs.take(n - 1);
        let longer = txs.take(n as int);
        assert forall|h: ShellHash| #[trigger] seen_after(txs, cooling, now, n).contains_key(h)
            <==> cooling.contains_key(h) || crate::chain::hashes_of(longer).contains(h) by {
            let before = seen_after(txs, cooling, now, (n - 1) as nat);
            assert(before.contains_key(h) <==> cooling.contains_key(h) || crate::chain::hashes_of(
                shorter,
            ).contains(h));
            assert(longer[n - 1] == txs[n - 1]);
            if crate::chain::hashes_of(shorter).contains(h) {
                let j = choose|j: int| 0 <= j < shorter.len() && (#[trigger] shorter[j]).hash == h;
                assert(longer[j].hash == h);
            }
            if crate::chain::hashes_of(longer).contains(h) {
                let j = choose|j: int| 0 <= j < longer.len() && (#[trigger] longer[j]).hash == h;
                if j < n - 1 {
                    assert(shorter[j].hash == h);
                }
            }
        }
    }
}

fn retain_cooling(seen: &Table<ShellHash, u64>, now: u64) -> (r: Table<ShellHash, u64>)
    ensures
        r@ == still_cooling(seen@, now),
{
    let mut kept: Table<ShellHash, u64> = Table::new();
    let count: usize = seen.len();
    let ghost rows = seen.rows();
    let mut i: usize = 0;
    assert(still_cooling(crate::table::rows_map(rows.take(0)), now) =~= Map::empty());
    while i < count
        invariant
            i <= count,
            count == rows.len(),
            rows == seen.rows(),
            crate::table::distinct_keys(rows),
            kept@ == still_cooling(crate::table::rows_map(rows.take(i as int)), now),
        decreases count - i,
    {
        let row = seen.row(i);
        let last: u64 = row.1;
        let cooling: bool = last > now || now - last < TX_REBROADCAST_COOLDOWN_NANOS;
        let ghost before = kept@;
        if cooling {
            kept.insert(row.0, last);
        }
        proof {
            let shorter = rows.take(i as int);
            let longer = rows.take(i + 1);
            assert(longer.drop_last() =~= shorter);
            assert(crate::table::distinct_keys(shorter));
            crate::table::lemma_rows_map(shorter);
            assert(!crate::table::rows_map(shorter).contains_key(rows[i as int].0)) by {
                if crate::table::rows_map(shorter).contains_key(rows[i as int].0) {
                    let j = choose|j: int|
                        0 <= j < shorter.len() && (#[trigger] shorter[j]).0 == rows[i as int].0;
                    assert(rows[j].0 != rows[i as int].0);
                }
            }
            assert(kept@ =~= still_cooling(crate::table::rows_map(longer), now));
        }
        i += 1;
    }
    assert(rows.take(i as int) =~= rows);
    kept
}

/// The pending transactions to rebroadcast.
///
/// To a single peer all of them go. A broadcast leaves out those that were broadcast within the
/// cooldown, and records the moment for the others; moments that lie further back are forgotten.
/// `now` and the recorded moments are nanoseconds of one monotonic clock.
pub fn pending_for_rebroadcast(
    txs: Vec<SignedTransaction>,
    targeted: bool,
    now: u64,
    seen: &mut Table<ShellHash, u64>,
) -> (r: Vec<SignedTransaction>)
    ensures
        txs@.len() == 0 || targeted ==> r@ == txs@ && final(seen)@ == old(seen)@,
        txs@.len() > 0 && !targeted ==> {
            let cooling = still_cooling(old(seen)@, now);
            &&& r@ == rebroadcast(txs@, cooling, txs@.len())
            &&& final(seen)@ == seen_after(txs@, cooling, now, txs@.len())
        },
{
    if txs.len() == 0 || targeted {
        return txs;
    }
    let ghost cooling = still_cooling(seen@, now);
    *seen = retain_cooling(&*seen, now);
    let mut selected: Vec<SignedTransaction> = Vec::new();
    let mut n: usize = 0;
    while n < txs.len()
        invariant
            n <= txs@.len(),
            selected@ == rebroadcast(txs@, cooling, n as nat),
            seen@ == seen_after(txs@, cooling, now, n as nat),
        decreases txs.len() - n,
    {
        let tx = txs[n];
        proof {
            lemma_seen_keys(txs@, cooling, now, n as nat);
        }
        if !seen.contains_key(&tx.hash) {
            seen.insert(tx.hash, now);
            selected.push(tx);
        }
        n += 1;
    }
    selected
}

/// A request that was not sent leaves no request in flight, so the next one draws a new nonce,
/// while a retry of one that was sent keeps its nonce exactly as long as the range stays the same.
pub proof fn law_nonce_is_stable_per_range(
    nonce: u64,
    start: u64,
    requested_start: u64,
    generated: u64,
)
    ensures
        request_nonce(None, None, requested_start, generated) == generated,
        request_nonce(Some(nonce), Some(start), requested_start, generated) == if start
            == requested_start {
            nonce
        } else {
            generated
        },
{
}

/// A transaction that was just rebroadcast is held back until the cooldown is over.
pub proof fn law_rebroadcast_is_held_back(
    txs: Seq<SignedTransaction>,
    seen: Map<ShellHash, u64>,
    now: u64,
    later: u64,
    i: int,
    again: Seq<SignedTransaction>,
    k: int,
)
    requires
        0 <= i < txs.len(),
        now <= later,
        later - now < TX_REBROADCAST_COOLDOWN_NANOS,
        rebroadcast(txs, still_cooling(seen, now), txs.len()).contains(txs[i]),
        ({
            let after = seen_after(txs, still_cooling(seen, now), now, txs.len());
            0 <= k < rebroadcast(again, still_cooling(after, later), again.len()).len()
        }),
    ensures
        ({
            let after = seen_after(txs, still_cooling(seen, now), now, txs.len());
            rebroadcast(again, still_cooling(after, later), again.len())[k].hash != txs[i].hash
        }),
{
    let cooling = still_cooling(seen, now);
    let after = seen_after(txs, cooling, now, txs.len());
    lemma_seen_keys(txs, cooling, now, txs.len());
    assert(txs.take(txs.len() as int) =~= txs);
    assert(crate::chain::hashes_of(txs).contains(txs[i].hash));
    assert(after.contains_key(txs[i].hash));
    lemma_rebroadcast_hashes(txs, cooling, txs.len());
    lemma_seen_moment(txs, cooling, now, txs.len(), txs[i].hash);
    let cooling_later = still_cooling(after, later);
    assert(cooling_later.contains_key(txs[i].hash));
    lemma_rebroadcast_hashes(again, cooling_later, again.len());
}

proof fn lemma_rebroadcast_hashes(
    txs: Seq<SignedTransaction>,
    cooling: Map<ShellHash, u64>,
    n: nat,
)
    requires
        n <= txs.len(),
    ensures
        forall|k: int|
            0 <= k < rebroadcast(txs, cooling, n).len() ==> !cooling.contains_key(
                (#[trigger] rebroadcast(txs, cooling, n)[k]).hash,
            ),
    decreases n,
{
    if n > 0 {
        lemma_rebroadcast_hashes(txs, cooling, (n - 1) as nat);
        let before = rebroadcast(txs, cooling, (n - 1) as nat);
        let all = rebroadcast(txs, cooling, n);
        assert forall|k: int| 0 <= k < all.len() implies !cooling.contains_key(
            (#[trigger] all[k]).hash,
        ) by {
            if k < before.len() {
                assert(all[k] == before[k]);
            }
        }
    }
}

proof fn lemma_seen_moment(
    txs: Seq<SignedTransaction>,
    cooling: Map<ShellHash, u64>,
    now: u64,
    n: nat,
    hash: ShellHash,
)
    requires
        n <= txs.len(),
        !cooling.contains_key(hash),
        seen_after(txs, cooling, now, n).contains_key(hash),
    ensures
        seen_after(txs, cooling, now, n)[hash] == now,
    decreases n,
{
    if n > 0 {
        let before = seen_after(txs, cooling, now, (n - 1) as nat);
        if before.contains_key(hash) {
            lemma_seen_moment(txs, cooling, now, (n - 1) as nat, hash);
        }
    }
}

/// Whether a transaction was broadcast less than a minute before `now`.
pub open spec fn seen_lately(seen: Map<ShellHash, u64>, now: u64, hash: ShellHash) -> bool {
    seen.contains_key(hash) && now < seen[hash] + 60_000_000_000
}

/// A transaction is rebroadcast exactly if none of its hash was broadcast within the last minute.
pub proof fn law_what_is_rebroadcast(
    txs: Seq<SignedTransaction>,
    seen: Map<ShellHash, u64>,
    now: u64,
    i: int,
)
    requires
        0 <= i < txs.len(),
    ensures
        (exists|k: int|
            0 <= k < rebroadcast(txs, still_cooling(seen, now), txs.len()).len() && (
            #[trigger] rebroadcast(txs, still_cooling(seen, now), txs.len())[k]).hash
                == txs[i].hash) <==> !seen_lately(seen, now, txs[i].hash),
{
    let cooling = still_cooling(seen, now);
    let hash = txs[i].hash;
    let chosen = rebroadcast(txs, cooling, txs.len());
    lemma_rebroadcast_hashes(txs, cooling, txs.len());
    assert(cooling.contains_key(hash) <==> seen_lately(seen, now, hash));
    if !cooling.contains_key(hash) {
        lemma_rebroadcast_holds(txs, cooling, txs.len(), i);
    }
}

proof fn lemma_rebroadcast_holds(
    txs: Seq<SignedTransaction>,
    cooling: Map<ShellHash, u64>,
    n: nat,
    i: int,
)
    requires
        0 <= i < n <= txs.len(),
        !cooling.contains_key(txs[i].hash),
    ensures
        exists|k: int|
            0 <= k < rebroadcast(txs, cooling, n).len() && (#[trigger] rebroadcast(
                txs,
                cooling,
                n,
            )[k]).hash == txs[i].hash,
    decreases n,
{
    let before = rebroadcast(txs, cooling, (n - 1) as nat);
    let all = rebroadcast(txs, cooling, n);
    let fewer = txs.take(n - 1);
    if i < n - 1 {
        lemma_rebroadcast_holds(txs, cooling, (n - 1) as nat, i);
        let k = choose|k: int|
            0 <= k < before.len() && (#[trigger] before[k]).hash == txs[i].hash;
        assert(all[k] == before[k]);
    } else if crate::chain::hashes_of(fewer).contains(txs[i].hash) {
        let j = choose|j: int| 0 <= j < fewer.len() && (#[trigger] fewer[j]).hash == txs[i].hash;
        assert(txs[j] == fewer[j]);
        lemma_rebroadcast_holds(txs, cooling, (n - 1) as nat, j);
        let k = choose|k: int|
            0 <= k < before.len() && (#[trigger] before[k]).hash == txs[j].hash;
        assert(all[k] == before[k]);
    } else {
        assert(all[before.len() as int] == txs[i]);
    }
}

/// What is rebroadcast comes from the pending transactions in their order, each hash once.
pub proof fn law_rebroadcast_in_order(
    txs: Seq<SignedTransaction>,
    cooling: Map<ShellHash, u64>,
    n: nat,
) -> (places: Seq<int>)
    requires
        n <= txs.len(),
    ensures
        places.len() == rebroadcast(txs, cooling, n).len(),
        forall|k: int|
            0 <= k < places.len() ==> 0 <= (#[trigger] places[k]) < n && rebroadcast(
                txs,
                cooling,
                n,
            )[k] == txs[places[k]],
        forall|k: int, l: int|
            0 <= k < l < places.len() ==> (#[trigger] places[k]) < (#[trigger] places[l])
                && txs[places[k]].hash != txs[places[l]].hash,
    decreases n,
{
    if n == 0 {
        Seq::empty()
    } else {
        let before = law_rebroadcast_in_order(txs, cooling, (n - 1) as nat);
        let tx = txs[n - 1];
        let fewer = txs.take(n - 1);
        if cooling.contains_key(tx.hash) || crate::chain::hashes_of(fewer).contains(tx.hash) {
            before
        } else {
            let places = before.push(n - 1);
            assert forall|k: int, l: int| 0 <= k < l < places.len() implies (#[trigger] places[k])
                < (#[trigger] places[l]) && txs[places[k]].hash != txs[places[l]].hash by {
                if l == before.len() {
                    assert(fewer[places[k]] == txs[places[k]]);
                }
            }
            places
        }
    }
}

/// After a broadcast, the moments of exactly those transactions are kept that were broadcast within
/// the last minute or have just been: the former with their moments, the latter with the present one.
pub proof fn law_moments_of_broadcasts(
    txs: Seq<SignedTransaction>,
    seen: Map<ShellHash, u64>,
    now: u64,
    hash: ShellHash,
)
    ensures
        ({
            let after = seen_after(txs, still_cooling(seen, now), now, txs.len());
            let pending = exists|i: int| 0 <= i < txs.len() && (#[trigger] txs[i]).hash == hash;
            &&& after.contains_key(hash) <==> seen_lately(seen, now, hash) || pending
            &&& seen_lately(seen, now, hash) ==> after[hash] == seen[hash]
            &&& !seen_lately(seen, now, hash) && pending ==> after[hash] == now
        }),
{
    let cooling = still_cooling(seen, now);
    assert(cooling.contains_key(hash) <==> seen_lately(seen, now, hash));
    lemma_seen_keys(txs, cooling, now, txs.len());
    assert(txs.take(txs.len() as int) =~= txs);
    if cooling.contains_key(hash) {
        lemma_seen_stays(txs, cooling, now, txs.len(), hash);
    } else if seen_after(txs, cooling, now, txs.len()).contains_key(hash) {
        lemma_seen_moment(txs, cooling, now, txs.len(), hash);
    }
}

proof fn lemma_seen_stays(
    txs: Seq<SignedTransaction>,
    cooling: Map<ShellHash, u64>,
    now: u64,
    n: nat,
    hash: ShellHash,
)
    requires
        cooling.contains_key(hash),
    ensures
        seen_after(txs, cooling, now, n).contains_key(hash),
        seen_after(txs, cooling, now, n)[hash] == cooling[hash],
    decreases n,
{
    if n > 0 {
        lemma_seen_stays(txs, cooling, now, (n - 1) as nat, hash);
    }
}

/// A number that is held between two bounds is itself where it lies between them, and else the bound
/// that it is nearest to.
pub proof fn law_held_between_bounds(n: int, low: int, high: int)
    requires
        low <= high,
    ensures
        low <= clamped(n, low, high) <= high,
        low <= n <= high ==> clamped(n, low, high) == n,
        n < low ==> clamped(n, low, high) == low,
        n > high ==> clamped(n, low, high) == high,
{
}

/// A nonce is kept exactly if a request for the same range is active; any other request takes the
/// generated one.
pub proof fn law_nonces_are_kept_for_retries(
    active_nonce: Option<u64>,
    active_start: Option<u64>,
    requested_start: u64,
    generated: u64,
)
    ensures
        ({
            let nonce = request_nonce(active_nonce, active_start, requested_start, generated);
            let retry = active_nonce is Some && active_start is Some && active_start->0
                == requested_start;
            &&& retry ==> nonce == active_nonce->0
            &&& !retry ==> nonce == generated
        }),
{
}

/// A node asks for the block after its head, and for nothing at the last possible height.
pub proof fn law_what_is_asked_for_next(head: u64, start: Option<u64>)
    requires
        call_ensures(next_block_request_start, (head,), start),
    ensures
        start is Some <==> head < 0xffff_ffff_ffff_ffff,
        start matches Some(n) ==> n == head + 1,
{
}

/// A request that went out and is made again for the same range keeps its nonce; one that did not go
/// out leaves nothing behind, and the next one takes a new nonce.
pub proof fn law_requests_and_retries(
    head: u64,
    first_nonce: u64,
    second_nonce: u64,
    sent: bool,
    requested: &mut bool,
    nonce: &mut Option<u64>,
    start: &mut Option<u64>,
    requested_again: &mut bool,
    nonce_again: &mut Option<u64>,
    start_again: &mut Option<u64>,
    retried: Option<BlockRequest>,
)
    requires
        head < u64::MAX,
        call_ensures(
            record_sync_request_result,
            (sent, first_nonce, (head + 1) as u64, requested, nonce, start),
            sent,
        ),
        *requested_again == *final(requested),
        *nonce_again == *final(nonce),
        *start_again == *final(start),
        call_ensures(
            request_missing_blocks,
            (head, second_nonce, requested_again, nonce_again, start_again),
            retried,
        ),
    ensures
        *final(requested) == sent,
        retried matches Some(request) && request.start_number == head + 1 && request.count == 1,
        sent ==> retried->0.nonce == first_nonce,
        !sent ==> retried->0.nonce == second_nonce,
{
}

/// A node that makes no progress waits longer from the third attempt on, and never less than before.
pub proof fn law_waiting_grows(attempts: u32, more: u32, delay: u64, longer: u64)
    requires
        attempts <= more,
        call_ensures(sync_retry_delay_secs, (attempts,), delay),
        call_ensures(sync_retry_delay_secs, (more,), longer),
    ensures
        delay <= longer,
        attempts < 3 ==> delay == 5,
        attempts >= 3 ==> delay == 30,
{
}

/// Startup waits a block time for synchronization, and catching up is given up after three, within
/// fixed bounds.
pub proof fn law_how_long_startup_waits(block_time_ms: u64, grace: u64, timeout: u64)
    requires
        call_ensures(startup_sync_grace, (block_time_ms,), grace),
        call_ensures(catch_up_timeout, (block_time_ms,), timeout),
    ensures
        2_000 <= grace <= 10_000,
        10_000 <= timeout <= 90_000,
        2_000 <= block_time_ms <= 10_000 ==> grace == block_time_ms,
        block_time_ms < 2_000 ==> grace == 2_000,
        block_time_ms > 10_000 ==> grace == 10_000,
        10_000 <= 3 * block_time_ms <= 90_000 ==> timeout == 3 * block_time_ms,
        3 * block_time_ms < 10_000 ==> timeout == 10_000,
        3 * block_time_ms > 90_000 ==> timeout == 90_000,
{
}

/// To a single peer all pending transactions go, whenever they were broadcast, and that is no
/// broadcast.
pub proof fn law_a_single_peer_gets_everything(
    txs: Vec<SignedTransaction>,
    now: u64,
    seen: &mut Table<ShellHash, u64>,
    sent: Vec<SignedTransaction>,
)
    requires
        call_ensures(pending_for_rebroadcast, (txs, true, now, seen), sent),
    ensures
        sent@ == txs@,
        final(seen)@ == old(seen)@,
{
}

/// A broadcast reaches exactly the hashes that were not broadcast within the last minute, and counts
/// for them from now on.
pub proof fn law_what_a_broadcast_reaches(
    txs: Vec<SignedTransaction>,
    now: u64,
    seen: &mut Table<ShellHash, u64>,
    sent: Vec<SignedTransaction>,
    i: int,
)
    requires
        call_ensures(pending_for_rebroadcast, (txs, false, now, seen), sent),
        0 <= i < txs@.len(),
    ensures
        (exists|k: int| 0 <= k < sent@.len() && (#[trigger] sent@[k]).hash == txs@[i].hash)
            <==> !seen_lately(old(seen)@, now, txs@[i].hash),
        final(seen)@.contains_key(txs@[i].hash),
        !seen_lately(old(seen)@, now, txs@[i].hash) ==> final(seen)@[txs@[i].hash] == now,
        seen_lately(old(seen)@, now, txs@[i].hash) ==> final(seen)@[txs@[i].hash] == old(
            seen,
        )@[txs@[i].hash],
{
    law_what_is_rebroadcast(txs@, old(seen)@, now, i);
    law_moments_of_broadcasts(txs@, old(seen)@, now, txs@[i].hash);
}

} // verus!
