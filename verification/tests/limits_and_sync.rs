use shell_node::chain::SignedTransaction;
use shell_node::limits::{
    checked_cumulative_blob_gas, checked_cumulative_block_gas, tx_fits_remaining_block_gas,
};
use shell_node::primitives::{Address, ShellHash};
use shell_node::sync::{
    catch_up_timeout, next_block_request_start, pending_for_rebroadcast,
    record_sync_request_result, request_missing_blocks, stable_sync_request_nonce,
    startup_sync_grace, sync_retry_delay_secs, TX_REBROADCAST_COOLDOWN_NANOS,
};
use shell_node::table::Table;

const BLOB_GAS_PER_BLOB: u64 = 131_072;
const MAX_BLOB_GAS_PER_BLOCK: u64 = 786_432;

fn signed_tx(n: u8, gas_limit: u64) -> SignedTransaction {
    SignedTransaction {
        hash: ShellHash::from([n; 32]),
        sender: Address::from([1u8; 32]),
        nonce: u64::from(n),
        gas_limit,
        signature_len: 3_309,
    }
}

fn hashes(txs: &[SignedTransaction]) -> Vec<ShellHash> {
    txs.iter().map(|tx| tx.hash).collect()
}

#[test]
fn next_block_request_start_stops_at_terminal_height() {
    assert_eq!(next_block_request_start(0), Some(1));
    assert_eq!(next_block_request_start(u64::MAX - 1), Some(u64::MAX));
    assert_eq!(next_block_request_start(u64::MAX), None);
}

#[test]
fn tx_fits_remaining_block_gas_rejects_invalid_cumulative_gas() {
    let tx = signed_tx(1, 0);

    assert!(tx_fits_remaining_block_gas(&tx, 30_000_000, 30_000_000));
    assert!(!tx_fits_remaining_block_gas(&tx, 30_000_001, 30_000_000));
}

#[test]
fn tx_fits_remaining_block_gas_is_exact_at_the_limit() {
    let tx = signed_tx(1, 10);
    assert!(tx_fits_remaining_block_gas(&tx, 20, 30));
    assert!(!tx_fits_remaining_block_gas(&tx, 21, 30));
    assert!(!tx_fits_remaining_block_gas(&signed_tx(1, u64::MAX), u64::MAX, u64::MAX));
    assert_eq!(checked_cumulative_block_gas(20, tx.gas_limit, 30), Some(30));
}

#[test]
fn checked_cumulative_block_gas_rejects_limit_and_u64_overflow() {
    assert_eq!(checked_cumulative_block_gas(20, 10, 30), Some(30));
    assert_eq!(checked_cumulative_block_gas(20, 11, 30), None);
    assert_eq!(checked_cumulative_block_gas(u64::MAX, 1, u64::MAX), None);
}

#[test]
fn checked_cumulative_blob_gas_enforces_block_limit() {
    assert_eq!(
        checked_cumulative_blob_gas(
            MAX_BLOB_GAS_PER_BLOCK - BLOB_GAS_PER_BLOB,
            BLOB_GAS_PER_BLOB,
            MAX_BLOB_GAS_PER_BLOCK,
        ),
        Some(MAX_BLOB_GAS_PER_BLOCK)
    );
    assert_eq!(
        checked_cumulative_blob_gas(
            MAX_BLOB_GAS_PER_BLOCK,
            BLOB_GAS_PER_BLOB,
            MAX_BLOB_GAS_PER_BLOCK,
        ),
        None
    );
    assert_eq!(
        checked_cumulative_blob_gas(u64::MAX, BLOB_GAS_PER_BLOB, MAX_BLOB_GAS_PER_BLOCK),
        None
    );
}

#[test]
fn rebroadcast_pending_transactions_preserves_sender_nonce_order_for_peer() {
    let mut seen = Table::new();
    let nonce0 = signed_tx(0, 21_000);
    let nonce1 = signed_tx(1, 21_000);

    let first = pending_for_rebroadcast(vec![nonce0], true, 0, &mut seen);
    assert_eq!(first.len(), 1);
    assert_eq!(first[0].hash, nonce0.hash);

    let ordered = pending_for_rebroadcast(vec![nonce0, nonce1], true, 0, &mut seen);
    assert_eq!(hashes(&ordered), vec![nonce0.hash, nonce1.hash]);
    assert_eq!(seen.len(), 0, "a targeted send records nothing");
}

#[test]
fn periodic_rebroadcast_filters_shared_pool_transactions_before_cloning() {
    let mut seen = Table::new();
    let tx = signed_tx(0, 21_000);

    let first = pending_for_rebroadcast(vec![tx], false, 5, &mut seen);
    assert_eq!(first.len(), 1);
    assert_eq!(first[0].hash, tx.hash);
    assert!(pending_for_rebroadcast(vec![tx], false, 5, &mut seen).is_empty());
}

#[test]
fn rebroadcast_resumes_after_the_cooldown() {
    let mut seen = Table::new();
    let tx = signed_tx(0, 21_000);
    let other = signed_tx(1, 21_000);
    assert_eq!(pending_for_rebroadcast(vec![tx], false, 10, &mut seen).len(), 1);

    let almost = 10 + TX_REBROADCAST_COOLDOWN_NANOS - 1;
    let selected = pending_for_rebroadcast(vec![tx, other], false, almost, &mut seen);
    assert_eq!(hashes(&selected), vec![other.hash]);

    let selected = pending_for_rebroadcast(vec![tx, other], false, almost + 1, &mut seen);
    assert_eq!(hashes(&selected), vec![tx.hash]);
    assert_eq!(seen.get(&tx.hash), Some(&(almost + 1)));
    assert_eq!(seen.get(&other.hash), Some(&almost));
}

#[test]
fn rebroadcast_names_a_repeated_transaction_once() {
    let mut seen = Table::new();
    let tx = signed_tx(0, 21_000);
    let selected = pending_for_rebroadcast(vec![tx, tx], false, 1, &mut seen);
    assert_eq!(selected.len(), 1);
}

#[test]
fn sync_retry_delay_uses_backoff_after_threshold() {
    assert_eq!(sync_retry_delay_secs(0), 5);
    assert_eq!(sync_retry_delay_secs(2), 5);
    assert_eq!(sync_retry_delay_secs(3), 30);
    assert_eq!(sync_retry_delay_secs(10), 30);
}

#[test]
fn sync_windows_stay_within_their_bounds() {
    assert_eq!(startup_sync_grace(500), 2_000);
    assert_eq!(startup_sync_grace(3_000), 3_000);
    assert_eq!(startup_sync_grace(u64::MAX), 10_000);
    assert_eq!(catch_up_timeout(500), 10_000);
    assert_eq!(catch_up_timeout(5_000), 15_000);
    assert_eq!(catch_up_timeout(u64::MAX), 90_000);
}

#[test]
fn failed_sync_request_does_not_leave_an_in_flight_nonce() {
    let mut sync_requested = true;
    let mut sync_request_nonce = Some(7);
    let mut sync_request_start = Some(10);

    assert!(!record_sync_request_result(
        false,
        8,
        11,
        &mut sync_requested,
        &mut sync_request_nonce,
        &mut sync_request_start,
    ));
    assert!(!sync_requested);
    assert_eq!(sync_request_nonce, None);
    assert_eq!(sync_request_start, None);

    assert!(record_sync_request_result(
        true,
        9,
        12,
        &mut sync_requested,
        &mut sync_request_nonce,
        &mut sync_request_start,
    ));
    assert!(sync_requested);
    assert_eq!(sync_request_nonce, Some(9));
    assert_eq!(sync_request_start, Some(12));
}

#[test]
fn sync_retry_reuses_nonce_only_for_the_same_range() {
    assert_eq!(stable_sync_request_nonce(Some(7), Some(10), 10, 8), 7);
    assert_eq!(stable_sync_request_nonce(Some(7), Some(10), 11, 8), 8);
    assert_eq!(stable_sync_request_nonce(None, None, 10, 8), 8);
}

#[test]
fn missing_blocks_are_requested_one_at_a_time() {
    let mut requested = true;
    let mut nonce = Some(7);
    let mut start = Some(10);
    let request = request_missing_blocks(9, 8, &mut requested, &mut nonce, &mut start).unwrap();
    assert_eq!((request.start_number, request.count, request.nonce), (10, 1, 7));
    let request = request_missing_blocks(10, 8, &mut requested, &mut nonce, &mut start).unwrap();
    assert_eq!((request.start_number, request.nonce), (11, 8));

    assert!(request_missing_blocks(u64::MAX, 8, &mut requested, &mut nonce, &mut start).is_none());
    assert_eq!((requested, nonce, start), (false, None, None));
}
