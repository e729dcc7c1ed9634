//! Voting weights and the quorum that finality takes.

use vstd::prelude::*;

use crate::primitives::Address;
use crate::table::Table;

verus! {

/// The sum of the weights of some validators among the first `n` rows of a weight table.
pub open spec fn weight_among(rows: Seq<(Address, u64)>, members: Set<Address>, n: nat) -> nat
    decreases n,
{
    if n == 0 {
        0
    } else {
        weight_among(rows, members, (n - 1) as nat) + if members.contains(rows[n - 1].0) {
            rows[n - 1].1 as nat
        } else {
            0
        }
    }
}

/// The sum of the weights of some validators.
pub open spec fn weight_of(rows: Seq<(Address, u64)>, members: Set<Address>) -> nat {
    weight_among(rows, members, rows.len())
}

/// The sum of all weights.
pub open spec fn weight_sum(rows: Seq<(Address, u64)>) -> nat {
    weight_of(rows, Set::full())
}

/// A weight as a 64-bit number; larger ones are held at the largest.
pub open spec fn capped(weight: nat) -> u64 {
    if weight > u64::MAX {
        u64::MAX
    } else {
        weight as u64
    }
}

/// Whether a weight is strictly more than two thirds of a total that is not zero.
pub open spec fn is_quorum(signed: int, total: int) -> bool {
    total > 0 && 3 * signed > 2 * total
}

/// Whether a weight is strictly more than two thirds of a total that is not zero.
pub fn has_weighted_quorum(signed_weight: u64, total_weight: u64) -> (r: bool)
    ensures
        r == is_quorum(signed_weight as int, total_weight as int),
{
    total_weight > 0 && 3 * (signed_weight as u128) > 2 * (total_weight as u128)
}

/// Whether a weight is strictly more than two thirds of a total that is not zero, for weights that
/// need not fit in 64 bits.
pub fn has_wide_quorum(signed_weight: u128, total_weight: u128) -> (r: bool)
    ensures
        r == is_quorum(signed_weight as int, total_weight as int),
{
    let third: u128 = total_weight / 3;
    let rest: u128 = total_weight % 3;
    let needed: u128 = if rest == 0 {
        third
    } else {
        third + 1
    };
    total_weight > 0 && signed_weight > total_weight - needed
}

proof fn lemma_weight_bound(rows: Seq<(Address, u64)>, members: Set<Address>, n: nat)
    ensures
        weight_among(rows, members, n) <= n * u64::MAX,
    decreases n,
{
    if n > 0 {
        lemma_weight_bound(rows, members, (n - 1) as nat);
        assert(n * u64::MAX == (n - 1) * u64::MAX + u64::MAX) by (nonlinear_arith);
    }
}

/// The sum of the weights of those validators that a table lists.
pub fn weight_of_members<V>(weights: &Table<Address, u64>, members: &Table<Address, V>) -> (r: u128)
    ensures
        r == weight_of(weights.rows(), members@.dom()),
{
    let mut total: u128 = 0;
    let count: usize = weights.len();
    let mut i: usize = 0;
    let ghost rows = weights.rows();
    while i < count
        invariant
            i <= count,
            count == rows.len(),
            rows == weights.rows(),
            total == weight_among(rows, members@.dom(), i as nat),
        decreases count - i,
    {
        proof {
            lemma_weight_bound(rows, members@.dom(), (i + 1) as nat);
            assert((i + 1) * u64::MAX <= u128::MAX) by (nonlinear_arith)
                requires
                    i < u64::MAX,
            ;
        }
        let row = weights.row(i);
        if members.contains_key(&row.0) {
            total = total + row.1 as u128;
        }
        i += 1;
    }
    total
}

/// The sum of all weights.
pub fn wide_total_weight(weights: &Table<Address, u64>) -> (r: u128)
    ensures
        r == weight_sum(weights.rows()),
{
    let mut total: u128 = 0;
    let count: usize = weights.len();
    let mut i: usize = 0;
    let ghost rows = weights.rows();
    while i < count
        invariant
            i <= count,
            count == rows.len(),
            rows == weights.rows(),
            total == weight_among(rows, Set::full(), i as nat),
        decreases count - i,
    {
        proof {
            lemma_weight_bound(rows, Set::full(), (i + 1) as nat);
            assert((i + 1) * u64::MAX <= u128::MAX) by (nonlinear_arith)
                requires
                    i < u64::MAX,
            ;
        }
        total = total + weights.row(i).1 as u128;
        i += 1;
    }
    total
}

/// The sum of all weights, held at the largest 64-bit number where it exceeds it.
pub fn total_weight(weights: &Table<Address, u64>) -> (r: u64)
    ensures
        r == capped(weight_sum(weights.rows())),
{
    let mut total: u64 = 0;
    let mut i: usize = 0;
    let ghost rows = weights.rows();
    while i < weights.len()
        invariant
            i <= rows.len(),
            rows == weights.rows(),
            total == capped(weight_among(rows, Set::full(), i as nat)),
        decreases rows.len() - i,
    {
        total = total.saturating_add(weights.row(i).1);
        i += 1;
    }
    total
}

/// The weight of two groups together is at most the total and the weight of what they share.
proof fn lemma_overlap(rows: Seq<(Address, u64)>, a: Set<Address>, b: Set<Address>, n: nat)
    requires
        n <= rows.len(),
    ensures
        weight_among(rows, a, n) + weight_among(rows, b, n) <= weight_among(rows, Set::full(), n)
            + weight_among(rows, a.intersect(b), n),
    decreases n,
{
    if n > 0 {
        lemma_overlap(rows, a, b, (n - 1) as nat);
    }
}

/// A group without members among the validators weighs nothing.
proof fn lemma_empty_weight(rows: Seq<(Address, u64)>, members: Set<Address>, n: nat)
    requires
        n <= rows.len(),
        forall|i: int| 0 <= i < n ==> !(members.contains((#[trigger] rows[i]).0) && rows[i].1 > 0),
    ensures
        weight_among(rows, members, n) == 0,
    decreases n,
{
    if n > 0 {
        lemma_empty_weight(rows, members, (n - 1) as nat);
        assert(!(members.contains(rows[n - 1].0) && rows[n - 1].1 > 0));
    }
}

/// Two groups that each hold a quorum share a validator whose weight is not zero, so two blocks
/// cannot both gather a quorum without a validator that voted for both.
pub proof fn law_quorums_intersect(rows: Seq<(Address, u64)>, a: Set<Address>, b: Set<Address>)
    requires
        is_quorum(weight_of(rows, a) as int, weight_sum(rows) as int),
        is_quorum(weight_of(rows, b) as int, weight_sum(rows) as int),
    ensures
        exists|i: int|
            0 <= i < rows.len() && rows[i].1 > 0 && a.contains((#[trigger] rows[i]).0)
                && b.contains(rows[i].0),
{
    lemma_overlap(rows, a, b, rows.len());
    if !(exists|i: int|
        0 <= i < rows.len() && rows[i].1 > 0 && a.contains((#[trigger] rows[i]).0) && b.contains(
            rows[i].0,
        )) {
        lemma_empty_weight(rows, a.intersect(b), rows.len());
    }
}

/// More weight never loses a quorum.
pub proof fn law_quorum_is_monotone(less: int, more: int, total: int)
    requires
        less <= more,
        is_quorum(less, total),
    ensures
        is_quorum(more, total),
{
}

/// No validators weigh nothing.
pub proof fn lemma_no_members(rows: Seq<(Address, u64)>, n: nat)
    requires
        n <= rows.len(),
    ensures
        weight_among(rows, Set::empty(), n) == 0,
    decreases n,
{
    if n > 0 {
        lemma_no_members(rows, (n - 1) as nat);
    }
}

proof fn lemma_member_among(rows: Seq<(Address, u64)>, members: Set<Address>, who: Address, n: nat)
    requires
        n <= rows.len(),
        crate::table::distinct_keys(rows),
        !members.contains(who),
    ensures
        forall|i: int|
            0 <= i < n && (#[trigger] rows[i]).0 == who ==> weight_among(
                rows,
                members.insert(who),
                n,
            ) == weight_among(rows, members, n) + rows[i].1,
        (forall|i: int| 0 <= i < n ==> (#[trigger] rows[i]).0 != who) ==> weight_among(
            rows,
            members.insert(who),
            n,
        ) == weight_among(rows, members, n),
    decreases n,
{
    if n > 0 {
        lemma_member_among(rows, members, who, (n - 1) as nat);
        if rows[n - 1].0 == who {
            assert forall|i: int| 0 <= i < n - 1 implies (#[trigger] rows[i]).0 != who by {
                assert(rows[i].0 != rows[n - 1].0);
            }
        }
    }
}

/// One more validator adds its weight.
pub proof fn lemma_one_more_member(
    rows: Seq<(Address, u64)>,
    members: Set<Address>,
    who: Address,
)
    requires
        crate::table::distinct_keys(rows),
        crate::table::rows_map(rows).contains_key(who),
        !members.contains(who),
    ensures
        weight_of(rows, members.insert(who)) == weight_of(rows, members) + crate::table::rows_map(
            rows,
        )[who],
{
    crate::table::lemma_rows_map(rows);
    lemma_member_among(rows, members, who, rows.len());
    let i = choose|i: int| 0 <= i < rows.len() && (#[trigger] rows[i]).0 == who;
    assert(crate::table::rows_map(rows).contains_key(rows[i].0));
}

proof fn lemma_weight_prefix(
    rows: Seq<(Address, u64)>,
    more: Seq<(Address, u64)>,
    members: Set<Address>,
    n: nat,
)
    requires
        n <= rows.len(),
        n <= more.len(),
        forall|i: int| 0 <= i < n ==> rows[i] == more[i],
    ensures
        weight_among(rows, members, n) == weight_among(more, members, n),
    decreases n,
{
    if n > 0 {
        lemma_weight_prefix(rows, more, members, (n - 1) as nat);
        assert(rows[n - 1] == more[n - 1]);
    }
}

/// Weights add up: nobody weighs nothing, and one more row of a weight table adds its weight to the
/// total, and to the weight of every group that its validator belongs to.
pub proof fn law_weights_add_up(
    rows: Seq<(Address, u64)>,
    validator: Address,
    weight: u64,
    members: Set<Address>,
)
    ensures
        weight_sum(Seq::empty()) == 0,
        weight_of(Seq::empty(), members) == 0,
        weight_sum(rows.push((validator, weight))) == weight_sum(rows) + weight,
        members.contains(validator) ==> weight_of(rows.push((validator, weight)), members)
            == weight_of(rows, members) + weight,
        !members.contains(validator) ==> weight_of(rows.push((validator, weight)), members)
            == weight_of(rows, members),
{
    let more = rows.push((validator, weight));
    lemma_weight_prefix(rows, more, members, rows.len());
    lemma_weight_prefix(rows, more, Set::full(), rows.len());
    assert(more[more.len() - 1] == (validator, weight));
}

/// Where the line of a quorum runs: of three equal parts two are no quorum and the least bit more
/// is, and totals that do not divide by three take the next whole weight above two thirds. A total of
/// zero has no quorum.
pub proof fn law_quorum_line(part: int, signed: int)
    requires
        part >= 0,
    ensures
        !is_quorum(signed, 0),
        part > 0 ==> !is_quorum(2 * part, 3 * part) && is_quorum(2 * part + 1, 3 * part),
        !is_quorum(2 * part, 3 * part + 1) && is_quorum(2 * part + 1, 3 * part + 1),
        !is_quorum(2 * part + 1, 3 * part + 2) && is_quorum(2 * part + 2, 3 * part + 2),
{
}

/// A weight is held at the largest 64-bit number, and nothing else about it changes.
pub proof fn law_capped_weight(weight: nat)
    ensures
        weight <= 0xffff_ffff_ffff_ffff ==> capped(weight) == weight,
        weight > 0xffff_ffff_ffff_ffff ==> capped(weight) == 0xffff_ffff_ffff_ffff,
{
}

} // verus!
