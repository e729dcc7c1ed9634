//! Gas limits of a block.

use vstd::prelude::*;

use crate::chain::SignedTransaction;

verus! {

/// A sum, where it does not exceed a limit.
pub open spec fn within(a: u64, b: u64, limit: u64) -> Option<u64> {
    if a + b <= limit {
        Some((a + b) as u64)
    } else {
        None
    }
}

/// Whether a transaction's gas limit fits in what a block has left.
pub fn tx_fits_remaining_block_gas(
    tx: &SignedTransaction,
    cumulative_gas: u64,
    block_gas_limit: u64,
) -> (r: bool)
    ensures
        r == (cumulative_gas + tx.gas_limit <= block_gas_limit),
{
    cumulative_gas <= block_gas_limit && tx.gas_limit <= block_gas_limit - cumulative_gas
}

/// The gas of a block with one more transaction, where it stays within the block's limit.
pub fn checked_cumulative_block_gas(
    cumulative_gas: u64,
    gas_used: u64,
    block_gas_limit: u64,
) -> (r: Option<u64>)
    ensures
        r == within(cumulative_gas, gas_used, block_gas_limit),
{
    match cumulative_gas.checked_add(gas_used) {
        Some(next) => if next <= block_gas_limit {
            Some(next)
        } else {
            None
        },
        None => None,
    }
}

/// The blob gas of a block with one more transaction, where it stays within the most that a block
/// may use.
pub fn checked_cumulative_blob_gas(
    cumulative_blob_gas: u64,
    tx_blob_gas: u64,
    max_blob_gas_per_block: u64,
) -> (r: Option<u64>)
    ensures
        r == within(cumulative_blob_gas, tx_blob_gas, max_blob_gas_per_block),
{
    checked_cumulative_block_gas(cumulative_blob_gas, tx_blob_gas, max_blob_gas_per_block)
}

/// A transaction whose gas limit fits in what is left cannot take the block over its limit, whatever
/// part of it it uses.
pub proof fn law_fitting_transactions_are_counted(cumulative: u64, gas_limit: u64, used: u64, limit: u64)
    requires
        cumulative + gas_limit <= limit,
        used <= gas_limit,
    ensures
        within(cumulative, used, limit) == Some((cumulative + used) as u64),
{
}

/// What is counted is exactly the sum, and it is counted exactly if it does not exceed the limit; the
/// order of the two does not matter.
pub proof fn law_sums_within_the_limit(a: u64, b: u64, limit: u64)
    ensures
        within(a, b, limit) is Some <==> a + b <= limit,
        within(a, b, limit) matches Some(sum) ==> sum == a + b,
        within(a, b, limit) == within(b, a, limit),
{
}

/// A transaction fits exactly if what is used and its gas limit are together within the block's limit:
/// what fits stays fitting where less is used or more is allowed.
pub proof fn law_fitting_is_monotone(
    tx: SignedTransaction,
    cumulative: u64,
    limit: u64,
    fits: bool,
)
    requires
        call_ensures(tx_fits_remaining_block_gas, (&tx, cumulative, limit), fits),
    ensures
        fits <==> cumulative + tx.gas_limit <= limit,
        fits ==> within(cumulative, tx.gas_limit, limit) is Some,
{
}

} // verus!
