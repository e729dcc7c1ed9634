//! Rewards for proofs, the binding of a proof to its sources, second-layer jobs, and the framing of
//! settlements in a block's extra data.

use vstd::arithmetic::div_mod::lemma_div_denominator;
use vstd::arithmetic::power::pow;
use vstd::prelude::*;

use crate::chain::{Block, ChainStore, ChainView, SignedTransaction};
use crate::error::{NodeError, StarkError, StorageError};
use crate::primitives::{Address, ShellHash};
use crate::stark::{ProofAmendment, StarkState, StarkView, StoredProof, MIN_L1_STARK_TXS};

verus! {

/// The mint before any halving: one hundred tokens of eighteen decimals.
pub const BASE_STARK_MINT_WEI: u128 = 100_000_000_000_000_000_000;

/// Bytes of a signature that is no longer stored.
pub const ESTIMATED_DILITHIUM3_SIG_BYTES: u64 = 3_309;

/// Bytes that a stored signature takes in addition.
pub const ESTIMATED_REFERENCE_WITNESS_RLP_OVERHEAD_BYTES: u64 = 8;

/// A 256-bit number.
#[derive(Clone, Copy, Debug, PartialEq, Eq, Structural)]
pub struct U256 {
    /// The upper half.
    pub hi: u128,
    /// The lower half.
    pub lo: u128,
}

impl U256 {
    /// The number.
    pub open spec fn value(self) -> nat {
        (self.hi * 0x1_0000_0000_0000_0000_0000_0000_0000_0000 + self.lo) as nat
    }

    /// A number that fits in the lower half.
    pub fn from_u128(lo: u128) -> (r: Self)
        ensures
            r.value() == lo,
    {
        U256 { hi: 0, lo }
    }
}

/// The base mint, halved once for every layer.
pub open spec fn layer_mint(layer: nat) -> nat
    decreases layer,
{
    if layer == 0 {
        BASE_STARK_MINT_WEI as nat
    } else {
        layer_mint((layer - 1) as nat) / 2
    }
}

proof fn lemma_mint_gone(layer: nat, more: nat)
    requires
        layer <= more,
        layer_mint(layer) == 0,
    ensures
        layer_mint(more) == 0,
    decreases more,
{
    if layer < more {
        lemma_mint_gone(layer, (more - 1) as nat);
    }
}

fn mint_at(layer: u32) -> (r: u128)
    ensures
        r == layer_mint(layer as nat),
        r <= BASE_STARK_MINT_WEI,
{
    let mut mint: u128 = BASE_STARK_MINT_WEI;
    let mut i: u32 = 0;
    while i < layer
        invariant
            i <= layer,
            mint == layer_mint(i as nat),
            mint <= BASE_STARK_MINT_WEI,
        decreases layer - i,
    {
        if mint == 0 {
            proof {
                lemma_mint_gone(i as nat, layer as nat);
            }
            return 0;
        }
        mint = mint / 2;
        i += 1;
    }
    mint
}

proof fn lemma_split_product(mint: int, n: int, a: int, b: int, q: int, mid: int, low: int)
    requires
        mint == a * 0x1_0000_0000_0000_0000 + b,
        q == b * n,
        mid == q / 0x1_0000_0000_0000_0000 + a * n,
        low == q % 0x1_0000_0000_0000_0000,
    ensures
        mint * n == mid * 0x1_0000_0000_0000_0000 + low,
{
    assert(q == (q / 0x1_0000_0000_0000_0000) * 0x1_0000_0000_0000_0000 + low);
    assert(mint * n == (a * n) * 0x1_0000_0000_0000_0000 + b * n) by (nonlinear_arith)
        requires
            mint == a * 0x1_0000_0000_0000_0000 + b,
    ;
}

/// The product of a mint and a number of sources.
fn mint_times(mint: u128, n: u64) -> (r: U256)
    requires
        mint <= BASE_STARK_MINT_WEI,
    ensures
        r.value() == mint * n,
{
    let word: u128 = 0x1_0000_0000_0000_0000;
    let a: u128 = mint / word;
    let b: u128 = mint % word;
    let count: u128 = n as u128;
    proof {
        assert(b * count <= (word - 1) * (word - 1)) by (nonlinear_arith)
            requires
                0 <= b < word,
                0 <= count < word,
        ;
        assert(a * count <= 6 * (word - 1)) by (nonlinear_arith)
            requires
                0 <= a <= 6,
                0 <= count < word,
        ;
    }
    let q: u128 = b * count;
    let high: u128 = a * count;
    let mid: u128 = q / word + high;
    let low: u128 = q % word;
    proof {
        lemma_split_product(
            mint as int,
            n as int,
            a as int,
            b as int,
            q as int,
            mid as int,
            low as int,
        );
        assert((mid % word) * word + low <= u128::MAX) by (nonlinear_arith)
            requires
                0 <= low < word,
                0 <= mid % word <= word - 1,
                word == 0x1_0000_0000_0000_0000,
        ;
    }
    let r = U256 { hi: mid / word, lo: (mid % word) * word + low };
    proof {
        let h = mid / word;
        let m = mid % word;
        assert(mid == h * word + m) by (nonlinear_arith)
            requires
                word > 0,
                h == mid / word,
                m == mid % word,
        ;
        assert(h * (word * word) + (m * word + low) == (h * word + m) * word + low)
            by (nonlinear_arith);
        assert(word * word == 0x1_0000_0000_0000_0000_0000_0000_0000_0000);
    }
    r
}

/// The first of some sources whose block is not known.
pub open spec fn first_unknown_source(view: ChainView, sources: Seq<ShellHash>, i: int) -> Option<
    ShellHash,
>
    decreases sources.len() - i,
{
    if i < 0 || i >= sources.len() {
        None
    } else if !view.blocks.contains_key(sources[i]) {
        Some(sources[i])
    } else {
        first_unknown_source(view, sources, i + 1)
    }
}

/// The number of blocks with transactions among the first `n` of some sources.
pub open spec fn non_empty_sources(view: ChainView, sources: Seq<ShellHash>, n: nat) -> nat
    decreases n,
{
    if n == 0 {
        0
    } else {
        non_empty_sources(view, sources, (n - 1) as nat) + if view.blocks[sources[n
            - 1]].transactions.len() > 0 {
            1nat
        } else {
            0
        }
    }
}

/// How many mints an amendment earns: one for each source with transactions in the first layer, one
/// for each source above it, and at least one.
pub open spec fn rewarded_sources(view: ChainView, amendment: ProofAmendment) -> nat {
    let count = if amendment.layer == 1 {
        non_empty_sources(view, amendment.covered@, amendment.covered@.len())
    } else {
        amendment.covered@.len()
    };
    if count == 0 {
        1
    } else {
        count
    }
}

/// Why an amendment earns no reward, if it does not.
pub open spec fn reward_error(view: ChainView, amendment: ProofAmendment) -> Option<StarkError> {
    if !amendment.compression_valid {
        Some(StarkError::RewardCompression)
    } else if amendment.layer == 1 && 0 < amendment.n_sigs < MIN_L1_STARK_TXS {
        Some(StarkError::RewardTooFew { n_sigs: amendment.n_sigs })
    } else if amendment.layer == 1 && first_unknown_source(view, amendment.covered@, 0) is Some {
        Some(
            StarkError::RewardSourceMissing {
                hash: first_unknown_source(view, amendment.covered@, 0)->0,
            },
        )
    } else {
        None
    }
}

/// The reward of an amendment: the mint of its layer, once for each rewarded source. It holds no
/// share of any fee.
pub fn stark_reward_value(chain: &ChainStore, amendment: &ProofAmendment) -> (r: Result<
    U256,
    StarkError,
>)
    ensures
        match reward_error(chain@, *amendment) {
            Some(e) => r == Err::<U256, StarkError>(e),
            None => r matches Ok(value) && value.value() == layer_mint(amendment.layer as nat)
                * rewarded_sources(chain@, *amendment),
        },
{
    if !amendment.compression_valid {
        return Err(StarkError::RewardCompression);
    }
    if amendment.layer == 1 && amendment.n_sigs != 0 && amendment.n_sigs < MIN_L1_STARK_TXS {
        return Err(StarkError::RewardTooFew { n_sigs: amendment.n_sigs });
    }
    let ghost view = chain@;
    let ghost sources = amendment.covered@;
    let mut count: u64 = 0;
    if amendment.layer == 1 {
        let mut i: usize = 0;
        while i < amendment.covered.len()
            invariant
                i <= sources.len(),
                sources == amendment.covered@,
                view == chain@,
                count <= i,
                count == non_empty_sources(view, sources, i as nat),
                first_unknown_source(view, sources, 0) == first_unknown_source(
                    view,
                    sources,
                    i as int,
                ),
                amendment.layer == 1,
                amendment.compression_valid,
                !(0 < amendment.n_sigs < MIN_L1_STARK_TXS),
            decreases amendment.covered.len() - i,
        {
            let hash = amendment.covered[i];
            match chain.get_block_by_hash(&hash) {
                None => {
                    return Err(StarkError::RewardSourceMissing { hash });
                },
                Some(block) => {
                    assert(view.blocks[hash].transactions == block.transactions@);
                    if block.transactions.len() > 0 {
                        count += 1;
                    }
                },
            }
            i += 1;
        }
    } else {
        count = amendment.covered.len() as u64;
    }
    if count == 0 {
        count = 1;
    }
    Ok(mint_times(mint_at(amendment.layer), count))
}

/// Passes on whether an amendment is authenticated by its prover.
pub fn validate_stark_amendment_authentication(outcome: Result<(), String>) -> (r: Result<
    (),
    NodeError,
>)
    ensures
        match outcome {
            Ok(_) => r is Ok,
            Err(detail) => r == Err::<(), NodeError>(NodeError::ProverAuthentication { detail }),
        },
{
    match outcome {
        Ok(()) => Ok(()),
        Err(detail) => Err(NodeError::ProverAuthentication { detail }),
    }
}

/// How many artifacts of an amendment were stored, where they were: `artifacts` is how many there
/// are, or why they could not be serialized, and `written` what writing all of them at once came to.
pub fn store_stark_artifacts(
    block_number: u64,
    artifacts: Result<usize, String>,
    written: Result<(), StorageError>,
) -> (r: Result<usize, NodeError>)
    ensures
        r == match artifacts {
            Err(detail) => Err::<usize, NodeError>(
                NodeError::ArtifactEncoding { block_number, detail },
            ),
            Ok(count) => match written {
                Ok(_) => Ok::<usize, NodeError>(count),
                Err(e) => Err::<usize, NodeError>(NodeError::Storage(e)),
            },
        },
{
    match artifacts {
        Err(detail) => Err(NodeError::ArtifactEncoding { block_number, detail }),
        Ok(count) => match written {
            Ok(()) => Ok(count),
            Err(e) => Err(NodeError::Storage(e)),
        },
    }
}

/// The reward transaction of an amendment, but for its payload.
#[derive(Clone, Copy, Debug, PartialEq, Eq)]
pub struct StarkRewardParams {
    /// The network.
    pub chain_id: u64,
    /// Height of the block that pays the reward.
    pub block_number: u64,
    /// Place of the transaction in the block.
    pub tx_index: u32,
    /// Account that is paid.
    pub recipient: Address,
    /// What is paid.
    pub value: U256,
    /// The last block that the proof covers.
    pub source_hash: ShellHash,
    /// The layer of compression.
    pub layer: u32,
    /// Size of what the proof replaces, in bytes.
    pub original_size: u64,
    /// Size of the proof, in bytes.
    pub compressed_size: u64,
}

/// Builds the reward transaction of an amendment, but for its payload.
///
/// An amendment that does not say how large its sources were gets none; one that does not say how
/// large it is counts with its actual size.
pub fn build_stark_reward_tx(
    chain: &ChainStore,
    chain_id: u64,
    block_number: u64,
    tx_index: u32,
    amendment: &ProofAmendment,
) -> (r: Result<StarkRewardParams, StarkError>)
    ensures
        amendment.original_size is None ==> r == Err::<StarkRewardParams, StarkError>(
            StarkError::MissingOriginalSize,
        ),
        amendment.original_size is Some ==> match reward_error(chain@, *amendment) {
            Some(e) => r == Err::<StarkRewardParams, StarkError>(e),
            None => r matches Ok(p) && p == (StarkRewardParams {
                chain_id,
                block_number,
                tx_index,
                recipient: amendment.prover,
                value: p.value,
                source_hash: amendment.block_hash,
                layer: amendment.layer,
                original_size: amendment.original_size->0,
                compressed_size: match amendment.compressed_size {
                    Some(n) => n,
                    None => amendment.size_bytes,
                },
            }) && p.value.value() == layer_mint(amendment.layer as nat) * rewarded_sources(
                chain@,
                *amendment,
            ),
        },
{
    let original_size: u64 = match amendment.original_size {
        Some(size) => size,
        None => {
            return Err(StarkError::MissingOriginalSize);
        },
    };
    let compressed_size: u64 = match amendment.compressed_size {
        Some(size) => size,
        None => amendment.size_bytes,
    };
    match stark_reward_value(chain, amendment) {
        Err(e) => Err(e),
        Ok(value) => Ok(
            StarkRewardParams {
                chain_id,
                block_number,
                tx_index,
                recipient: amendment.prover,
                value,
                source_hash: amendment.block_hash,
                layer: amendment.layer,
                original_size,
                compressed_size,
            },
        ),
    }
}

/// Whether some transaction of a block still has its signature.
pub open spec fn has_signatures(txs: Seq<SignedTransaction>) -> bool {
    exists|i: int| 0 <= i < txs.len() && (#[trigger] txs[i]).signature_len > 0
}

/// The larger of two lengths.
pub open spec fn longer(a: nat, b: nat) -> nat {
    if a >= b {
        a
    } else {
        b
    }
}

/// The size of the signatures that a proof over a source replaces.
///
/// A source without entries has none. Else it is the size of the stored signatures, or of those that
/// the block itself still carries (`carried_size`, where they are any), or an estimate for each
/// transaction. A block that was put together again after its signatures were pruned carries empty
/// ones, which do not count.
pub fn stark_source_original_size(
    state: &StarkState,
    source_hash: &ShellHash,
    source_block: &Block,
    entry_count: usize,
    carried_size: Option<u64>,
) -> (r: u64)
    requires
        longer(source_block.transactions@.len(), entry_count as nat) * 3_317 <= u64::MAX,
    ensures
        r == if entry_count == 0 {
            0
        } else if state@.witnesses.contains_key(*source_hash) {
            state@.witnesses[*source_hash] as nat
        } else if has_signatures(source_block.transactions@) && carried_size is Some {
            carried_size->0 as nat
        } else {
            longer(source_block.transactions@.len(), entry_count as nat) * 3_317
        },
{
    if entry_count == 0 {
        return 0;
    }
    match state.witness_size(source_hash) {
        Some(size) => {
            return size;
        },
        None => {},
    }
    let mut signed: bool = false;
    let mut i: usize = 0;
    while i < source_block.transactions.len()
        invariant
            i <= source_block.transactions@.len(),
            signed == exists|j: int|
                0 <= j < i && (#[trigger] source_block.transactions@[j]).signature_len > 0,
        decreases source_block.transactions.len() - i,
    {
        if source_block.transactions[i].signature_len > 0 {
            assert(source_block.transactions@[i as int].signature_len > 0);
            signed = true;
        }
        i += 1;
    }
    if signed {
        match carried_size {
            Some(size) => {
                return size;
            },
            None => {},
        }
    }
    let txs: usize = source_block.transactions.len();
    let count: usize = if txs >= entry_count {
        txs
    } else {
        entry_count
    };
    count as u64 * (ESTIMATED_DILITHIUM3_SIG_BYTES + ESTIMATED_REFERENCE_WITNESS_RLP_OVERHEAD_BYTES)
}

/// The number of entries that the first `n` of some sources add to a signature batch.
pub open spec fn batch_entries(view: ChainView, sources: Seq<ShellHash>, n: nat) -> nat
    decreases n,
{
    if n == 0 {
        0
    } else {
        batch_entries(view, sources, (n - 1) as nat) + view.blocks[sources[n - 1]].sig_entries as nat
    }
}

/// The first height of an amendment's range, or its target's where the range has no room for its
/// sources.
pub open spec fn shown_start(amendment: ProofAmendment) -> u64 {
    match amendment.range_start {
        Some(start) => start,
        None => amendment.block_number,
    }
}

/// Why a first-layer proof is not bound to its sources, if it is not. `expected_root` is the root of
/// the entries of its sources, and `verified` is what verifying the proof itself came to.
pub open spec fn l1_binding_error(
    view: ChainView,
    amendment: ProofAmendment,
    expected_root: Seq<u8>,
    verified: Result<(), String>,
) -> Option<StarkError> {
    let sources = amendment.covered@;
    let entries = batch_entries(view, sources, sources.len());
    let start = shown_start(amendment);
    let end = amendment.block_number;
    if first_unknown_source(view, sources, 0) is Some {
        Some(StarkError::SourceMissing { hash: first_unknown_source(view, sources, 0)->0 })
    } else if entries != amendment.n_sigs {
        Some(
            StarkError::CountMismatch {
                n_sigs: amendment.n_sigs,
                entries: if entries > u64::MAX {
                    u64::MAX
                } else {
                    entries as u64
                },
                start,
                end,
            },
        )
    } else if expected_root != amendment.batch_root@ {
        Some(StarkError::RootMismatch { start, end })
    } else if entries == 0 && amendment.proof_len > 0 {
        Some(StarkError::EmptyRangeProof { end })
    } else if entries > 0 && verified is Err {
        Some(StarkError::ProofFailed { end, detail: verified->Err_0 })
    } else {
        None
    }
}

fn same_root(a: &[u8; 32], b: &[u8; 32]) -> (r: bool)
    ensures
        r == (a@ == b@),
{
    let mut i: usize = 0;
    while i < 32
        invariant
            i <= 32,
            forall|j: int| 0 <= j < i ==> a@[j] == b@[j],
        decreases 32 - i,
    {
        if a[i] != b[i] {
            assert(a@[i as int] != b@[i as int]);
            return false;
        }
        i += 1;
    }
    assert(a@ =~= b@);
    true
}

/// The blocks that a first-layer proof is made over: those that its amendment covers, in order. A
/// source that is not known is named.
pub fn l1_source_blocks(chain: &ChainStore, amendment: &ProofAmendment) -> (r: Result<
    Vec<Block>,
    StarkError,
>)
    ensures
        match first_unknown_source(chain@, amendment.covered@, 0) {
            Some(hash) => r == Err::<Vec<Block>, StarkError>(StarkError::SourceMissing { hash }),
            None => r matches Ok(blocks) && crate::fork::views(blocks@) == crate::fork::blocks_of(
                chain@,
                amendment.covered@,
            ),
        },
{
    let ghost view = chain@;
    let ghost sources = amendment.covered@;
    let mut blocks: Vec<Block> = Vec::new();
    let mut i: usize = 0;
    while i < amendment.covered.len()
        invariant
            i <= sources.len(),
            sources == amendment.covered@,
            view == chain@,
            blocks@.len() == i,
            forall|j: int| 0 <= j < i ==> (#[trigger] blocks@[j])@ == view.blocks[sources[j]],
            first_unknown_source(view, sources, 0) == first_unknown_source(view, sources, i as int),
        decreases amendment.covered.len() - i,
    {
        let hash = amendment.covered[i];
        match chain.get_block_by_hash(&hash) {
            None => {
                return Err(StarkError::SourceMissing { hash });
            },
            Some(block) => {
                blocks.push(block.duplicate());
            },
        }
        i += 1;
    }
    assert(crate::fork::views(blocks@) =~= crate::fork::blocks_of(view, sources));
    Ok(blocks)
}

/// Checks that a first-layer proof is bound to its sources: it is over as many entries as they hold,
/// over their root, and it holds. A range without entries takes no proof.
pub fn validate_l1_proof_source_binding(
    chain: &ChainStore,
    amendment: &ProofAmendment,
    expected_root: &[u8; 32],
    verified: &Result<(), String>,
) -> (r: Result<(), StarkError>)
    ensures
        match l1_binding_error(chain@, *amendment, expected_root@, *verified) {
            Some(e) => r == Err::<(), StarkError>(e),
            None => r is Ok,
        },
{
    let ghost view = chain@;
    let ghost sources = amendment.covered@;
    let blocks = match l1_source_blocks(chain, amendment) {
        Ok(blocks) => blocks,
        Err(e) => {
            return Err(e);
        },
    };
    proof {
        assert(crate::fork::views(blocks@).len() == sources.len());
        assert forall|j: int| 0 <= j < blocks@.len() implies (#[trigger] blocks@[j])@
            == view.blocks[sources[j]] by {
            assert(crate::fork::views(blocks@)[j] == crate::fork::blocks_of(view, sources)[j]);
        }
    }
    let mut entries: u64 = 0;
    let mut exceeded: bool = false;
    let mut i: usize = 0;
    while i < blocks.len()
        invariant
            i <= sources.len(),
            blocks@.len() == sources.len(),
            forall|j: int|
                0 <= j < blocks@.len() ==> (#[trigger] blocks@[j])@ == view.blocks[sources[j]],
            exceeded == (batch_entries(view, sources, i as nat) > u64::MAX),
            !exceeded ==> entries == batch_entries(view, sources, i as nat),
            exceeded ==> entries == u64::MAX,
        decreases blocks.len() - i,
    {
        let block = &blocks[i];
        assert(block@ == view.blocks[sources[i as int]]);
        if !exceeded {
            match entries.checked_add(block.sig_entries) {
                Some(sum) => {
                    entries = sum;
                },
                None => {
                    exceeded = true;
                    entries = u64::MAX;
                },
            }
        }
        i += 1;
    }
    let start: u64 = match amendment.range_start {
        Some(start) => start,
        None => amendment.block_number,
    };
    let end: u64 = amendment.block_number;
    if exceeded || entries != amendment.n_sigs as u64 {
        return Err(
            StarkError::CountMismatch { n_sigs: amendment.n_sigs, entries, start, end },
        );
    }
    if !same_root(expected_root, &amendment.batch_root) {
        return Err(StarkError::RootMismatch { start, end });
    }
    if entries == 0 {
        if amendment.proof_len > 0 {
            return Err(StarkError::EmptyRangeProof { end });
        }
        return Ok(());
    }
    match verified {
        Ok(()) => Ok(()),
        Err(detail) => Err(StarkError::ProofFailed { end, detail: detail.clone() }),
    }
}

/// The number that some bytes stand for, lowest byte first.
pub open spec fn little_endian(bytes: Seq<u8>) -> nat
    decreases bytes.len(),
{
    if bytes.len() == 0 {
        0
    } else {
        bytes[0] as nat + 256 * little_endian(bytes.skip(1))
    }
}

/// The lower half of a root as a number.
pub open spec fn low_half(root: Seq<u8>) -> nat {
    little_endian(root.take(16))
}

/// The first power of 256 that `n` bytes do not reach.
pub open spec fn byte_limit(n: nat) -> nat
    decreases n,
{
    if n == 0 {
        1
    } else {
        256 * byte_limit((n - 1) as nat)
    }
}

proof fn lemma_little_endian_bound(bytes: Seq<u8>)
    ensures
        little_endian(bytes) < byte_limit(bytes.len()),
    decreases bytes.len(),
{
    if bytes.len() > 0 {
        lemma_little_endian_bound(bytes.skip(1));
    }
}

/// The lower half of a root as a number. The upper half plays no part above the first layer.
pub fn root_low_half(root: &[u8; 32]) -> (r: u128)
    ensures
        r == low_half(root@),
{
    let ghost half = root@.take(16);
    let mut value: u128 = 0;
    let mut i: usize = 16;
    assert(half.skip(16) =~= Seq::empty());
    while i > 0
        invariant
            i <= 16,
            half == root@.take(16),
            value == little_endian(half.skip(i as int)),
        decreases i,
    {
        i -= 1;
        proof {
            let rest = half.skip(i as int);
            assert(rest.skip(1) =~= half.skip(i + 1));
            assert(rest[0] == root@[i as int]);
            lemma_little_endian_bound(half.skip(i + 1));
            lemma_byte_limit((15 - i) as nat);
        }
        value = 256 * value + root[i] as u128;
    }
    assert(half.skip(0) =~= half);
    value
}

proof fn lemma_byte_limit(n: nat)
    requires
        n <= 15,
    ensures
        256 * byte_limit(n) <= 0x1_0000_0000_0000_0000_0000_0000_0000_0000,
{
    reveal_with_fuel(byte_limit, 17);
}

/// Why the first-layer proof of a source cannot be aggregated, if it cannot.
pub open spec fn l2_source_error(view: StarkView, hash: ShellHash) -> Option<StarkError> {
    if !view.proofs.contains_key(hash) {
        Some(StarkError::L2SourceMissing { hash })
    } else {
        match view.proofs[hash] {
            StoredProof::Undecodable { detail } => Some(
                StarkError::L2SourceUndecodable { hash, detail },
            ),
            StoredProof::Decoded { layer, batch_root } => if layer != 1 {
                Some(StarkError::L2SourceLayer { hash, layer })
            } else if !view.settled.contains(crate::stark::at_layer(1, hash)) {
                Some(StarkError::L2SourceUnsettled { hash })
            } else {
                None
            },
        }
    }
}

/// What is wrong with the first faulty source from position `i` on.
pub open spec fn l2_sources_error(view: StarkView, sources: Seq<ShellHash>, i: int) -> Option<
    StarkError,
>
    decreases sources.len() - i,
{
    if i < 0 || i >= sources.len() {
        None
    } else if l2_source_error(view, sources[i]) is Some {
        l2_source_error(view, sources[i])
    } else {
        l2_sources_error(view, sources, i + 1)
    }
}

/// The lower half of the root of a source's first-layer proof.
pub open spec fn source_root(view: StarkView, hash: ShellHash) -> nat {
    match view.proofs[hash] {
        StoredProof::Decoded { layer, batch_root } => low_half(batch_root@),
        StoredProof::Undecodable { detail } => 0,
    }
}

/// What a second-layer proof is over.
#[derive(Debug)]
pub struct RecursiveInputs {
    /// The lower halves of the roots of its first-layer proofs, in order.
    pub l1_roots: Vec<u128>,
    /// The first height of its range.
    pub start_block: u64,
    /// The last height of its range.
    pub end_block: u64,
}

/// The roots that a second-layer proof must be over: those of the first-layer proofs of its sources,
/// each of which must be stored, readable, of the first layer and settled.
pub fn l2_source_roots(state: &StarkState, amendment: &ProofAmendment) -> (r: Result<
    RecursiveInputs,
    StarkError,
>)
    ensures
        match l2_sources_error(state@, amendment.covered@, 0) {
            Some(e) => r == Err::<RecursiveInputs, StarkError>(e),
            None => r matches Ok(inputs) && {
                &&& inputs.l1_roots@.len() == amendment.covered@.len()
                &&& forall|i: int|
                    0 <= i < inputs.l1_roots@.len() ==> (#[trigger] inputs.l1_roots@[i])
                        == source_root(state@, amendment.covered@[i])
                &&& inputs.start_block == shown_start(*amendment)
                &&& inputs.end_block == amendment.block_number
            },
        },
{
    let ghost view = state@;
    let ghost sources = amendment.covered@;
    let mut l1_roots: Vec<u128> = Vec::new();
    let mut i: usize = 0;
    while i < amendment.covered.len()
        invariant
            i <= sources.len(),
            sources == amendment.covered@,
            view == state@,
            l2_sources_error(view, sources, 0) == l2_sources_error(view, sources, i as int),
            l1_roots@.len() == i,
            forall|j: int| 0 <= j < i ==> (#[trigger] l1_roots@[j]) == source_root(view, sources[j]),
        decreases amendment.covered.len() - i,
    {
        let hash = amendment.covered[i];
        match state.get_proof(&hash) {
            None => {
                return Err(StarkError::L2SourceMissing { hash });
            },
            Some(StoredProof::Undecodable { detail }) => {
                return Err(StarkError::L2SourceUndecodable { hash, detail: detail.clone() });
            },
            Some(StoredProof::Decoded { layer, batch_root }) => {
                if *layer != 1 {
                    return Err(StarkError::L2SourceLayer { hash, layer: *layer });
                }
                if !state.has_settled_source(1, hash) {
                    return Err(StarkError::L2SourceUnsettled { hash });
                }
                l1_roots.push(root_low_half(batch_root));
            },
        }
        i += 1;
    }
    let start_block: u64 = match amendment.range_start {
        Some(start) => start,
        None => amendment.block_number,
    };
    Ok(RecursiveInputs { l1_roots, start_block, end_block: amendment.block_number })
}

/// What verifying a second-layer proof came to.
#[derive(Debug, PartialEq, Eq)]
pub enum RecursiveCheck {
    /// The bytes are no such proof.
    Undecodable,
    /// There is no verifier.
    NotImplemented,
    /// The proof does not hold.
    Failed {
        /// What the verifier reported.
        detail: String,
    },
    /// The proof holds.
    Verified,
}

/// Why a second-layer proof is not bound to its sources, if it is not. `aggregate_root` is the root
/// over the roots of its sources.
pub open spec fn l2_binding_error(
    view: StarkView,
    amendment: ProofAmendment,
    aggregate_root: u128,
    check: RecursiveCheck,
) -> Option<StarkError> {
    let count = amendment.covered@.len();
    let got_root = low_half(amendment.batch_root@);
    let end = amendment.block_number;
    if l2_sources_error(view, amendment.covered@, 0) is Some {
        l2_sources_error(view, amendment.covered@, 0)
    } else if amendment.n_sigs != count {
        Some(
            StarkError::L2CountMismatch { n_sigs: amendment.n_sigs, count: count as usize },
        )
    } else if got_root != aggregate_root {
        Some(
            StarkError::L2RootMismatch {
                expected_root: aggregate_root,
                got_root: got_root as u128,
            },
        )
    } else {
        match check {
            RecursiveCheck::Verified => None,
            RecursiveCheck::Undecodable => Some(StarkError::L2Undecodable { end }),
            RecursiveCheck::NotImplemented => Some(StarkError::L2NotImplemented { end }),
            RecursiveCheck::Failed { detail } => Some(StarkError::L2ProofFailed { detail }),
        }
    }
}

/// Checks that a second-layer proof is bound to its sources: each has a settled first-layer proof,
/// the proof is over as many of them as it names and over their aggregate root, and it holds. A
/// proof that cannot be read or verified is refused.
pub fn validate_l2_proof_source_binding(
    state: &StarkState,
    amendment: &ProofAmendment,
    aggregate_root: u128,
    check: &RecursiveCheck,
) -> (r: Result<(), StarkError>)
    ensures
        match l2_binding_error(state@, *amendment, aggregate_root, *check) {
            Some(e) => r == Err::<(), StarkError>(e),
            None => r is Ok,
        },
{
    let count: usize = match l2_source_roots(state, amendment) {
        Ok(inputs) => inputs.l1_roots.len(),
        Err(e) => {
            return Err(e);
        },
    };
    if amendment.n_sigs != count {
        return Err(StarkError::L2CountMismatch { n_sigs: amendment.n_sigs, count });
    }
    let got_root: u128 = root_low_half(&amendment.batch_root);
    if got_root != aggregate_root {
        return Err(StarkError::L2RootMismatch { expected_root: aggregate_root, got_root });
    }
    let end: u64 = amendment.block_number;
    match check {
        RecursiveCheck::Verified => Ok(()),
        RecursiveCheck::Undecodable => Err(StarkError::L2Undecodable { end }),
        RecursiveCheck::NotImplemented => Err(StarkError::L2NotImplemented { end }),
        RecursiveCheck::Failed { detail } => Err(
            StarkError::L2ProofFailed { detail: detail.clone() },
        ),
    }
}

/// What the provers have to say about an amendment and its sources.
#[derive(Debug)]
pub struct BindingEvidence {
    /// The root of the entries of the sources, for the first layer.
    pub expected_root: [u8; 32],
    /// What verifying the first-layer proof came to: that it holds, or what the verifier reported.
    pub verified: Result<(), String>,
    /// The root over the roots of the sources, for the second layer.
    pub aggregate_root: u128,
    /// What verifying the second-layer proof came to.
    pub check: RecursiveCheck,
}

/// Why a proof is not bound to its sources, if it is not.
pub open spec fn binding_error(
    chain: ChainView,
    view: StarkView,
    amendment: ProofAmendment,
    evidence: BindingEvidence,
) -> Option<StarkError> {
    if amendment.layer == 1 {
        l1_binding_error(chain, amendment, evidence.expected_root@, evidence.verified)
    } else if amendment.layer == 2 {
        l2_binding_error(view, amendment, evidence.aggregate_root, evidence.check)
    } else {
        Some(StarkError::UnsupportedLayer { layer: amendment.layer })
    }
}

/// Checks that a proof is bound to its sources. There are two layers.
pub fn validate_stark_proof_source_binding(
    chain: &ChainStore,
    state: &StarkState,
    amendment: &ProofAmendment,
    evidence: &BindingEvidence,
) -> (r: Result<(), StarkError>)
    ensures
        match binding_error(chain@, state@, *amendment, *evidence) {
            Some(e) => r == Err::<(), StarkError>(e),
            None => r is Ok,
        },
{
    if amendment.layer == 1 {
        return validate_l1_proof_source_binding(
            chain,
            amendment,
            &evidence.expected_root,
            &evidence.verified,
        );
    }
    if amendment.layer == 2 {
        return validate_l2_proof_source_binding(
            state,
            amendment,
            evidence.aggregate_root,
            &evidence.check,
        );
    }
    Err(StarkError::UnsupportedLayer { layer: amendment.layer })
}

/// A settled first-layer proof, as the second layer takes it.
#[derive(Clone, Copy, Debug)]
pub struct SettledL1Input {
    /// The first height of its range.
    pub start_block: u64,
    /// The last height of its range.
    pub end_block: u64,
    /// The lower half of its root.
    pub batch_root: u128,
    /// The last block that it covers.
    pub source_hash: ShellHash,
}

/// Whether an input is the one of an amendment.
pub open spec fn is_input_of(input: SettledL1Input, amendment: ProofAmendment) -> bool {
    &&& input.start_block == shown_start(amendment)
    &&& input.end_block == amendment.block_number
    &&& input.batch_root == low_half(amendment.batch_root@)
    &&& input.source_hash == amendment.block_hash
}

/// The test that an amendment is of the first layer.
pub open spec fn is_first_layer() -> spec_fn(ProofAmendment) -> bool {
    |a: ProofAmendment| a.layer == 1
}

/// The inputs that a block's settlements bring to the second layer: one for each first-layer
/// amendment, in order, or none at all where the second layer is switched off.
pub fn feed_l2_scheduler_from_settlements(settlements: &Vec<ProofAmendment>, enabled: bool) -> (r: Vec<
    SettledL1Input,
>)
    ensures
        !enabled ==> r@.len() == 0,
        enabled ==> {
            let first = settlements@.filter(is_first_layer());
            &&& r@.len() == first.len()
            &&& forall|i: int| 0 <= i < r@.len() ==> is_input_of(#[trigger] r@[i], first[i])
        },
{
    let mut inputs: Vec<SettledL1Input> = Vec::new();
    if !enabled {
        return inputs;
    }
    let ghost keep = is_first_layer();
    let mut n: usize = 0;
    proof {
        reveal(Seq::filter);
        assert(settlements@.take(0) =~= Seq::empty());
    }
    while n < settlements.len()
        invariant
            n <= settlements@.len(),
            keep == is_first_layer(),
            inputs@.len() == settlements@.take(n as int).filter(keep).len(),
            forall|i: int|
                0 <= i < inputs@.len() ==> is_input_of(
                    #[trigger] inputs@[i],
                    settlements@.take(n as int).filter(keep)[i],
                ),
        decreases settlements.len() - n,
    {
        let amendment = &settlements[n];
        proof {
            reveal(Seq::filter);
            assert(settlements@.take(n + 1).drop_last() =~= settlements@.take(n as int));
        }
        if amendment.layer == 1 {
            let start_block: u64 = match amendment.range_start {
                Some(start) => start,
                None => amendment.block_number,
            };
            inputs.push(
                SettledL1Input {
                    start_block,
                    end_block: amendment.block_number,
                    batch_root: root_low_half(&amendment.batch_root),
                    source_hash: amendment.block_hash,
                },
            );
        }
        n += 1;
    }
    assert(settlements@.take(n as int) =~= settlements@);
    inputs
}

/// How far a second-layer job has got.
#[derive(Clone, Copy, Debug, PartialEq, Eq, Structural)]
pub enum L2JobStatus {
    /// It waits to be worked on.
    Ready,
    /// Another status of the job store, by its tag.
    Other(u8),
}

/// A second-layer job.
#[derive(Debug)]
pub struct L2AggregationJob {
    /// How far it has got.
    pub status: L2JobStatus,
    /// The last blocks of its first-layer proofs, in order.
    pub l1_source_hashes: Vec<ShellHash>,
    /// Their roots, in order, of which only the lower halves are kept.
    pub l1_batch_roots: Vec<[u8; 32]>,
    /// The first height of its range.
    pub start_block: u64,
    /// The last height of its range.
    pub end_block: u64,
    /// The root over its first-layer proofs, once it is known.
    pub aggregate_root: Option<[u8; 32]>,
    /// How often it has been tried.
    pub retry_count: u32,
    /// What the last failed try came to.
    pub last_error: Option<String>,
    /// Height at which it was made.
    pub created_at_block: u64,
    /// Height at which it last changed.
    pub updated_at_block: u64,
}

/// A root with a number as its lower half, and an upper half of zeros.
fn root_of_half(value: u128) -> (r: [u8; 32])
    ensures
        low_half(r@) == value,
        forall|i: int| 16 <= i < 32 ==> r@[i] == 0,
{
    let mut bytes: [u8; 32] = [0u8; 32];
    let mut rest: u128 = value;
    let mut i: usize = 0;
    proof {
        assert(bytes@.take(0) =~= Seq::empty());
        assert(byte_limit(0) * rest == rest) by {
            assert(byte_limit(0) == 1);
            assert(1nat * rest == rest);
        }
        lemma_whole_half();
    }
    while i < 16
        invariant
            i <= 16,
            forall|k: int| i <= k < 32 ==> bytes@[k] == 0,
            rest < byte_limit((16 - i) as nat),
            value == little_endian(bytes@.take(i as int)) + byte_limit(i as nat) * rest,
        decreases 16 - i,
    {
        let ghost before = bytes@.take(i as int);
        let ghost held = rest;
        let digit: u8 = (rest % 256) as u8;
        bytes[i] = digit;
        rest = rest / 256;
        proof {
            assert(bytes@.take(i + 1) =~= before.push(digit));
            lemma_one_more_byte(before, digit);
            let limit = byte_limit(i as nat);
            assert(limit * held == limit * digit + (256 * limit) * rest) by (nonlinear_arith)
                requires
                    held == 256 * rest + digit,
            ;
            assert(byte_limit((16 - i) as nat) == 256 * byte_limit((15 - i) as nat));
        }
        i += 1;
    }
    assert(rest == 0);
    assert(byte_limit(16) * 0 == 0);
    bytes
}

proof fn lemma_whole_half()
    ensures
        byte_limit(16) == 0x1_0000_0000_0000_0000_0000_0000_0000_0000,
{
    reveal_with_fuel(byte_limit, 17);
}

/// One more byte at the top adds its value at that place.
proof fn lemma_one_more_byte(bytes: Seq<u8>, top: u8)
    ensures
        little_endian(bytes.push(top)) == little_endian(bytes) + byte_limit(bytes.len()) * top,
    decreases bytes.len(),
{
    let all = bytes.push(top);
    if bytes.len() == 0 {
        assert(all.skip(1) =~= Seq::empty());
        assert(little_endian(all.skip(1)) == 0);
        assert(byte_limit(0) * top == top) by {
            assert(byte_limit(0) == 1);
            assert(1nat * top == top);
        }
    } else {
        assert(all.skip(1) =~= bytes.skip(1).push(top));
        lemma_one_more_byte(bytes.skip(1), top);
        let limit = byte_limit((bytes.len() - 1) as nat);
        assert(256 * (limit * top) == (256 * limit) * top) by (nonlinear_arith);
    }
}

/// Whether a job is the new one over some first-layer proofs, made at a height: ready, untried and
/// without a result. Its range is theirs, from the first one's start to the last one's end, or that
/// height where there are none.
pub open spec fn is_job_over(
    job: L2AggregationJob,
    inputs: Seq<SettledL1Input>,
    current_block: u64,
) -> bool {
    &&& job.l1_source_hashes@.len() == inputs.len()
    &&& job.l1_batch_roots@.len() == inputs.len()
    &&& forall|i: int|
        0 <= i < inputs.len() ==> (#[trigger] job.l1_source_hashes@[i]) == inputs[i].source_hash
    &&& forall|i: int|
        0 <= i < inputs.len() ==> low_half((#[trigger] job.l1_batch_roots@[i])@)
            == inputs[i].batch_root
    &&& forall|i: int, k: int|
        0 <= i < inputs.len() && 16 <= k < 32 ==> (#[trigger] job.l1_batch_roots@[i]@[k]) == 0
    &&& job.start_block == if inputs.len() > 0 {
        inputs.first().start_block
    } else {
        current_block
    }
    &&& job.end_block == if inputs.len() > 0 {
        inputs.last().end_block
    } else {
        current_block
    }
    &&& job.status == L2JobStatus::Ready
    &&& job.aggregate_root is None
    &&& job.last_error is None
    &&& job.retry_count == 0
    &&& job.created_at_block == current_block
    &&& job.updated_at_block == current_block
}

/// The job to store over some first-layer proofs: none where one over the same proofs is stored, or
/// where looking it up failed.
pub fn create_l2_job_from_trigger(
    inputs: &Vec<SettledL1Input>,
    current_block: u64,
    stored: &Result<bool, StorageError>,
) -> (r: Option<L2AggregationJob>)
    ensures
        r is Some <==> *stored == Ok::<bool, StorageError>(false),
        r matches Some(job) ==> is_job_over(job, inputs@, current_block),
{
    match stored {
        Ok(false) => {},
        _ => {
            return None;
        },
    }
    let mut l1_source_hashes: Vec<ShellHash> = Vec::new();
    let mut l1_batch_roots: Vec<[u8; 32]> = Vec::new();
    let mut i: usize = 0;
    while i < inputs.len()
        invariant
            i <= inputs@.len(),
            l1_source_hashes@.len() == i,
            l1_batch_roots@.len() == i,
            forall|j: int|
                0 <= j < i ==> (#[trigger] l1_source_hashes@[j]) == inputs@[j].source_hash,
            forall|j: int|
                0 <= j < i ==> low_half((#[trigger] l1_batch_roots@[j])@) == inputs@[j].batch_root,
            forall|j: int, k: int|
                0 <= j < i && 16 <= k < 32 ==> (#[trigger] l1_batch_roots@[j]@[k]) == 0,
        decreases inputs.len() - i,
    {
        l1_source_hashes.push(inputs[i].source_hash);
        l1_batch_roots.push(root_of_half(inputs[i].batch_root));
        i += 1;
    }
    let (start_block, end_block): (u64, u64) = if inputs.len() > 0 {
        (inputs[0].start_block, inputs[inputs.len() - 1].end_block)
    } else {
        (current_block, current_block)
    };
    Some(
        L2AggregationJob {
            status: L2JobStatus::Ready,
            l1_source_hashes,
            l1_batch_roots,
            start_block,
            end_block,
            aggregate_root: None,
            retry_count: 0,
            last_error: None,
            created_at_block: current_block,
            updated_at_block: current_block,
        },
    )
}

/// The bytes in front of settlements in a block's extra data.
pub open spec fn system_extra_prefix() -> Seq<u8> {
    seq![
        115u8, 104, 101, 108, 108, 58, 115, 121, 115, 116, 101, 109, 45, 101, 120, 116, 114, 97, 58,
        118, 49, 58,
    ]
}

fn prefix_bytes() -> (r: Vec<u8>)
    ensures
        r@ == system_extra_prefix(),
{
    let r: Vec<u8> = vec![
        115, 104, 101, 108, 108, 58, 115, 121, 115, 116, 101, 109, 45, 101, 120, 116, 114, 97, 58,
        118, 49, 58,
    ];
    assert(r@ =~= system_extra_prefix());
    r
}

/// Frames the encoded settlements of a block as extra data; no settlements leave it empty.
pub fn encode_system_extra(payload: Option<Vec<u8>>) -> (r: Vec<u8>)
    ensures
        r@ == match payload {
            Some(bytes) => system_extra_prefix() + bytes@,
            None => Seq::empty(),
        },
{
    match payload {
        None => Vec::new(),
        Some(bytes) => {
            let ghost held = bytes@;
            let mut payload = bytes;
            let mut framed = prefix_bytes();
            framed.append(&mut payload);
            assert(framed@ =~= system_extra_prefix() + held);
            framed
        },
    }
}

/// The encoded settlements in a block's extra data, none where there are none.
pub open spec fn framed_payload(extra: Seq<u8>) -> Option<Seq<u8>> {
    let n = system_extra_prefix().len() as int;
    if extra.len() >= n && extra.take(n) == system_extra_prefix() {
        Some(extra.skip(n))
    } else {
        None
    }
}

/// The encoded settlements in a block's extra data. Extra data that does not begin with the prefix
/// holds none.
pub fn decode_system_extra(extra_data: &Vec<u8>) -> (r: Option<Vec<u8>>)
    ensures
        match r {
            Some(bytes) => framed_payload(extra_data@) == Some(bytes@),
            None => framed_payload(extra_data@) is None,
        },
{
    let prefix = prefix_bytes();
    let n: usize = prefix.len();
    if extra_data.len() < n {
        return None;
    }
    let mut i: usize = 0;
    while i < n
        invariant
            i <= n,
            n == prefix@.len(),
            prefix@ == system_extra_prefix(),
            n <= extra_data@.len(),
            forall|j: int| 0 <= j < i ==> extra_data@[j] == prefix@[j],
        decreases n - i,
    {
        if extra_data[i] != prefix[i] {
            proof {
                assert(extra_data@.take(n as int)[i as int] != system_extra_prefix()[i as int]);
            }
            return None;
        }
        i += 1;
    }
    assert(extra_data@.take(n as int) =~= system_extra_prefix());
    let mut payload: Vec<u8> = Vec::new();
    let mut k: usize = n;
    while k < extra_data.len()
        invariant
            n <= k <= extra_data@.len(),
            payload@ == extra_data@.subrange(n as int, k as int),
        decreases extra_data.len() - k,
    {
        payload.push(extra_data[k]);
        k += 1;
        assert(payload@ =~= extra_data@.subrange(n as int, k as int));
    }
    assert(payload@ =~= extra_data@.skip(n as int));
    Some(payload)
}

/// Settlements that were framed are read back as they were, and empty extra data holds none.
pub proof fn law_system_extra_round_trip(payload: Seq<u8>)
    ensures
        framed_payload(system_extra_prefix() + payload) == Some(payload),
        framed_payload(Seq::empty()) is None,
{
    let n = system_extra_prefix().len() as int;
    let framed = system_extra_prefix() + payload;
    assert(framed.take(n) =~= system_extra_prefix());
    assert(framed.skip(n) =~= payload);
}

/// Each layer's mint is half of the one below, and a reward is at least one mint of its layer and at
/// most one for each source.
pub proof fn law_reward_bounds(view: ChainView, amendment: ProofAmendment)
    ensures
        layer_mint(amendment.layer as nat + 1) == layer_mint(amendment.layer as nat) / 2,
        rewarded_sources(view, amendment) >= 1,
        amendment.covered@.len() > 0 ==> rewarded_sources(view, amendment)
            <= amendment.covered@.len(),
{
    lemma_non_empty_bound(view, amendment.covered@, amendment.covered@.len());
}

proof fn lemma_non_empty_bound(view: ChainView, sources: Seq<ShellHash>, n: nat)
    ensures
        non_empty_sources(view, sources, n) <= n,
    decreases n,
{
    if n > 0 {
        lemma_non_empty_bound(view, sources, (n - 1) as nat);
    }
}

/// Blocks without transactions add nothing to a first-layer reward: a range of nothing else earns
/// the least there is, one mint.
pub proof fn law_empty_blocks_earn_the_minimum(view: ChainView, amendment: ProofAmendment)
    requires
        amendment.layer == 1,
        forall|i: int|
            0 <= i < amendment.covered@.len() ==> view.blocks[#[trigger] amendment.covered@[i]].transactions.len()
                == 0,
    ensures
        rewarded_sources(view, amendment) == 1,
{
    lemma_all_empty(view, amendment.covered@, amendment.covered@.len());
}

proof fn lemma_all_empty(view: ChainView, sources: Seq<ShellHash>, n: nat)
    requires
        n <= sources.len(),
        forall|i: int|
            0 <= i < sources.len() ==> view.blocks[#[trigger] sources[i]].transactions.len() == 0,
    ensures
        non_empty_sources(view, sources, n) == 0,
    decreases n,
{
    if n > 0 {
        lemma_all_empty(view, sources, (n - 1) as nat);
        assert(view.blocks[sources[n - 1]].transactions.len() == 0);
    }
}

/// The positions of the sources whose blocks have transactions.
pub open spec fn positions_with_transactions(view: ChainView, sources: Seq<ShellHash>) -> Set<int> {
    Set::new(|i: int| 0 <= i < sources.len() && view.blocks[sources[i]].transactions.len() > 0)
}

proof fn lemma_counted_positions(view: ChainView, sources: Seq<ShellHash>, n: nat)
    requires
        n <= sources.len(),
    ensures
        positions_with_transactions(view, sources.take(n as int)).finite(),
        positions_with_transactions(view, sources.take(n as int)).len() == non_empty_sources(
            view,
            sources,
            n,
        ),
    decreases n,
{
    let all = positions_with_transactions(view, sources.take(n as int));
    if n == 0 {
        assert(all =~= Set::empty());
    } else {
        lemma_counted_positions(view, sources, (n - 1) as nat);
        let fewer = positions_with_transactions(view, sources.take(n - 1));
        let last: int = n - 1;
        assert forall|i: int| 0 <= i < n - 1 implies sources.take(n as int)[i] == sources.take(
            n - 1,
        )[i] by {}
        assert(sources.take(n as int)[last] == sources[last]);
        if view.blocks[sources[last]].transactions.len() > 0 {
            assert(all =~= fewer.insert(last));
            assert(!fewer.contains(last));
        } else {
            assert(all =~= fewer);
        }
    }
}

/// A first-layer proof earns one mint for each of its sources that has transactions, and at least
/// one; a proof of a higher layer earns one for each source, and at least one.
pub proof fn law_one_mint_for_each_source(view: ChainView, amendment: ProofAmendment)
    ensures
        ({
            let earning = Set::new(
                |i: int|
                    0 <= i < amendment.covered@.len() && view.blocks[amendment.covered@[i]].transactions.len()
                        > 0,
            );
            &&& earning.finite()
            &&& amendment.layer == 1 && earning.len() > 0 ==> rewarded_sources(view, amendment)
                == earning.len()
            &&& amendment.layer == 1 && earning.len() == 0 ==> rewarded_sources(view, amendment)
                == 1
            &&& amendment.layer != 1 && amendment.covered@.len() > 0 ==> rewarded_sources(
                view,
                amendment,
            ) == amendment.covered@.len()
            &&& amendment.covered@.len() == 0 ==> rewarded_sources(view, amendment) == 1
        }),
{
    let sources = amendment.covered@;
    lemma_counted_positions(view, sources, sources.len());
    assert(sources.take(sources.len() as int) =~= sources);
    assert(positions_with_transactions(view, sources) =~= Set::new(
        |i: int| 0 <= i < sources.len() && view.blocks[sources[i]].transactions.len() > 0,
    ));
    if sources.len() == 0 {
        assert(positions_with_transactions(view, sources) =~= Set::empty());
    }
}

/// A source with transactions more earns exactly one mint more, where there was one to earn for
/// before, and a source without any earns nothing more. Where every source has transactions, there
/// are as many mints as sources.
pub proof fn law_one_more_source_earns_one_more_mint(
    view: ChainView,
    shorter: ProofAmendment,
    longer: ProofAmendment,
    source: ShellHash,
)
    requires
        shorter.layer == 1,
        longer.layer == 1,
        longer.covered@ == shorter.covered@.push(source),
    ensures
        ({
            let before = rewarded_sources(view, shorter);
            let after = rewarded_sources(view, longer);
            let earned = exists|i: int|
                0 <= i < shorter.covered@.len()
                    && view.blocks[#[trigger] shorter.covered@[i]].transactions.len() > 0;
            &&& view.blocks[source].transactions.len() == 0 ==> after == before
            &&& view.blocks[source].transactions.len() > 0 && earned ==> after == before + 1
            &&& view.blocks[source].transactions.len() > 0 && !earned ==> after == 1
            &&& (forall|i: int|
                0 <= i < longer.covered@.len()
                    ==> view.blocks[#[trigger] longer.covered@[i]].transactions.len() > 0) ==> after
                == longer.covered@.len()
        }),
{
    let few = shorter.covered@;
    let many = longer.covered@;
    let a = positions_with_transactions(view, few);
    let b = positions_with_transactions(view, many);
    lemma_counted_positions(view, few, few.len());
    lemma_counted_positions(view, many, many.len());
    assert(few.take(few.len() as int) =~= few);
    assert(many.take(many.len() as int) =~= many);
    let last: int = few.len() as int;
    assert(many[last] == source);
    assert forall|i: int| 0 <= i < few.len() implies many[i] == few[i] by {}
    if view.blocks[source].transactions.len() > 0 {
        assert(b =~= a.insert(last));
        assert(!a.contains(last));
    } else {
        assert(b =~= a);
    }
    if exists|i: int| 0 <= i < few.len() && view.blocks[#[trigger] few[i]].transactions.len() > 0 {
        let i = choose|i: int|
            0 <= i < few.len() && view.blocks[#[trigger] few[i]].transactions.len() > 0;
        assert(a.contains(i));
        assert(a.len() > 0);
    } else {
        assert(a =~= Set::empty());
    }
    if forall|i: int|
        0 <= i < many.len() ==> view.blocks[#[trigger] many[i]].transactions.len() > 0 {
        lemma_all_counted(view, many, many.len());
    }
}

proof fn lemma_all_counted(view: ChainView, sources: Seq<ShellHash>, n: nat)
    requires
        n <= sources.len(),
        forall|i: int|
            0 <= i < sources.len() ==> view.blocks[#[trigger] sources[i]].transactions.len() > 0,
    ensures
        non_empty_sources(view, sources, n) == n,
    decreases n,
{
    if n > 0 {
        lemma_all_counted(view, sources, (n - 1) as nat);
        assert(view.blocks[sources[n - 1]].transactions.len() > 0);
    }
}

/// The mint of a layer is one hundred tokens of eighteen decimals, divided by two for every layer and
/// rounded down.
pub proof fn law_mint_of_a_layer(layer: nat)
    ensures
        layer_mint(layer) * pow(2, layer) <= 100_000_000_000_000_000_000,
        100_000_000_000_000_000_000 < (layer_mint(layer) + 1) * pow(2, layer),
    decreases layer,
{
    reveal(pow);
    if layer > 0 {
        law_mint_of_a_layer((layer - 1) as nat);
        let more = layer_mint((layer - 1) as nat) as int;
        let less = layer_mint(layer) as int;
        let p = pow(2, (layer - 1) as nat);
        assert(pow(2, layer) == 2 * p);
        lemma_powers_positive((layer - 1) as nat);
        assert(less * (2 * p) <= more * p) by (nonlinear_arith)
            requires
                2 * less <= more,
                p > 0,
        ;
        assert((more + 1) * p <= (less + 1) * (2 * p)) by (nonlinear_arith)
            requires
                more < 2 * less + 2,
                p > 0,
        ;
    } else {
        assert(pow(2, 0) == 1);
    }
}

proof fn lemma_powers_positive(n: nat)
    ensures
        pow(2, n) > 0,
    decreases n,
{
    reveal(pow);
    if n > 0 {
        lemma_powers_positive((n - 1) as nat);
    }
}

proof fn lemma_first_unknown(view: ChainView, sources: Seq<ShellHash>, from: int)
    requires
        0 <= from,
    ensures
        match first_unknown_source(view, sources, from) {
            Some(hash) => exists|i: int|
                from <= i < sources.len() && #[trigger] sources[i] == hash
                    && !view.blocks.contains_key(hash) && forall|j: int|
                    from <= j < i ==> view.blocks.contains_key(#[trigger] sources[j]),
            None => forall|j: int|
                from <= j < sources.len() ==> view.blocks.contains_key(#[trigger] sources[j]),
        },
    decreases sources.len() - from,
{
    if from < sources.len() {
        lemma_first_unknown(view, sources, from + 1);
        if view.blocks.contains_key(sources[from]) {
            match first_unknown_source(view, sources, from + 1) {
                Some(hash) => {
                    let i = choose|i: int|
                        from + 1 <= i < sources.len() && #[trigger] sources[i] == hash
                            && !view.blocks.contains_key(hash) && forall|j: int|
                            from + 1 <= j < i ==> view.blocks.contains_key(#[trigger] sources[j]);
                    assert(sources[i] == hash);
                },
                None => {},
            }
        } else {
            assert(sources[from] == sources[from]);
        }
    }
}

/// A proof is rewarded exactly if its compression is enough and, in the first layer, it is over no
/// signatures or over at least 512 of them and every block that it covers is known. Of several blocks
/// that are not known the first is named.
pub proof fn law_proofs_that_are_rewarded(view: ChainView, amendment: ProofAmendment, i: int)
    requires
        0 <= i < amendment.covered@.len(),
    ensures
        ({
            let error = reward_error(view, amendment);
            let enough = amendment.n_sigs == 0 || amendment.n_sigs >= 512;
            let before = forall|j: int|
                0 <= j < i ==> view.blocks.contains_key(#[trigger] amendment.covered@[j]);
            let all = forall|j: int|
                0 <= j < amendment.covered@.len() ==> view.blocks.contains_key(
                    #[trigger] amendment.covered@[j],
                );
            &&& error is None <==> amendment.compression_valid && (amendment.layer == 1 ==> enough
                && all)
            &&& !amendment.compression_valid ==> error == Some(StarkError::RewardCompression)
            &&& amendment.compression_valid && amendment.layer == 1 && !enough ==> error == Some(
                StarkError::RewardTooFew { n_sigs: amendment.n_sigs },
            )
            &&& amendment.compression_valid && amendment.layer == 1 && enough && before
                && !view.blocks.contains_key(amendment.covered@[i]) ==> error == Some(
                StarkError::RewardSourceMissing { hash: amendment.covered@[i] },
            )
        }),
{
    let sources = amendment.covered@;
    lemma_first_unknown(view, sources, 0);
    if first_unknown_source(view, sources, 0) is Some {
        let hash = first_unknown_source(view, sources, 0)->0;
        let k = choose|k: int|
            0 <= k < sources.len() && #[trigger] sources[k] == hash && !view.blocks.contains_key(hash)
                && forall|j: int| 0 <= j < k ==> view.blocks.contains_key(#[trigger] sources[j]);
        assert(!view.blocks.contains_key(sources[k]));
        if i < k {
            assert(view.blocks.contains_key(sources[i]));
        }
    }
}

/// The entries of two lists of sources one after the other are as many as those of both, a single
/// source has those of its block, and no sources have none.
pub proof fn law_entries_add_up(view: ChainView, first: Seq<ShellHash>, second: Seq<ShellHash>, one: ShellHash)
    ensures
        batch_entries(view, first + second, (first.len() + second.len()) as nat) == batch_entries(
            view,
            first,
            first.len(),
        ) + batch_entries(view, second, second.len()),
        batch_entries(view, seq![one], 1) == view.blocks[one].sig_entries,
        batch_entries(view, Seq::empty(), 0) == 0,
    decreases second.len(),
{
    reveal_with_fuel(batch_entries, 2);
    let all = first + second;
    if second.len() == 0 {
        assert(all =~= first);
    } else {
        let fewer = second.drop_last();
        law_entries_add_up(view, first, fewer, one);
        lemma_entries_prefix(view, all, first + fewer, (first.len() + fewer.len()) as nat);
        lemma_entries_prefix(view, second, fewer, fewer.len());
        assert(all[all.len() - 1] == second[second.len() - 1]);
    }
}

proof fn lemma_entries_prefix(view: ChainView, many: Seq<ShellHash>, few: Seq<ShellHash>, n: nat)
    requires
        n <= few.len() <= many.len(),
        forall|i: int| 0 <= i < few.len() ==> many[i] == few[i],
    ensures
        batch_entries(view, many, n) == batch_entries(view, few, n),
    decreases n,
{
    if n > 0 {
        lemma_entries_prefix(view, many, few, (n - 1) as nat);
    }
}

/// A first-layer proof is bound to its sources exactly if every one of them is known, they hold as
/// many entries as the proof is over, their root is the one that the proof is over, and the proof
/// holds or, where there are no entries, is empty.
pub proof fn law_bound_first_layer_proofs(
    view: ChainView,
    amendment: ProofAmendment,
    expected_root: Seq<u8>,
    verified: Result<(), String>,
)
    ensures
        l1_binding_error(view, amendment, expected_root, verified) is None <==> {
            let sources = amendment.covered@;
            &&& forall|i: int|
                0 <= i < sources.len() ==> view.blocks.contains_key(#[trigger] sources[i])
            &&& batch_entries(view, sources, sources.len()) == amendment.n_sigs
            &&& expected_root == amendment.batch_root@
            &&& amendment.n_sigs == 0 ==> amendment.proof_len == 0
            &&& amendment.n_sigs > 0 ==> verified is Ok
        },
{
    let sources = amendment.covered@;
    lemma_first_unknown(view, sources, 0);
    if first_unknown_source(view, sources, 0) is Some {
        let hash = first_unknown_source(view, sources, 0)->0;
        let k = choose|k: int|
            0 <= k < sources.len() && #[trigger] sources[k] == hash && !view.blocks.contains_key(hash)
                && forall|j: int| 0 <= j < k ==> view.blocks.contains_key(#[trigger] sources[j]);
        assert(!view.blocks.contains_key(sources[k]));
    }
}

/// Whether a source can go into a second-layer proof: its own proof is stored and readable, is of the
/// first layer, and is settled there.
pub open spec fn is_aggregable(view: StarkView, hash: ShellHash) -> bool {
    &&& view.proofs.contains_key(hash)
    &&& view.proofs[hash] is Decoded
    &&& view.proofs[hash]->layer == 1
    &&& view.settled.contains(crate::stark::LayeredSource { layer: 1, hash })
}

proof fn lemma_l2_sources(view: StarkView, sources: Seq<ShellHash>, from: int)
    requires
        0 <= from,
    ensures
        l2_sources_error(view, sources, from) is None <==> forall|i: int|
            from <= i < sources.len() ==> is_aggregable(view, #[trigger] sources[i]),
    decreases sources.len() - from,
{
    if from < sources.len() {
        lemma_l2_sources(view, sources, from + 1);
        assert(l2_source_error(view, sources[from]) is None <==> is_aggregable(view, sources[from]));
    }
}

/// A second-layer proof is bound to its sources exactly if each of them can go into one, the proof is
/// over as many as there are, the lower half of its root is the aggregate one, and the proof holds.
pub proof fn law_bound_second_layer_proofs(
    view: StarkView,
    amendment: ProofAmendment,
    aggregate_root: u128,
    check: RecursiveCheck,
)
    ensures
        l2_binding_error(view, amendment, aggregate_root, check) is None <==> {
            let sources = amendment.covered@;
            &&& forall|i: int|
                0 <= i < sources.len() ==> is_aggregable(view, #[trigger] sources[i])
            &&& amendment.n_sigs == sources.len()
            &&& low_half(amendment.batch_root@) == aggregate_root
            &&& check is Verified
        },
{
    lemma_l2_sources(view, amendment.covered@, 0);
}

/// A proof is bound to its sources by the rules of its layer, of which there are two; a proof of
/// another layer is bound to nothing.
pub proof fn law_two_layers_can_be_bound(
    chain: ChainView,
    view: StarkView,
    amendment: ProofAmendment,
    evidence: BindingEvidence,
)
    ensures
        ({
            let error = binding_error(chain, view, amendment, evidence);
            &&& error is None ==> 1 <= amendment.layer <= 2
            &&& amendment.layer == 0 || amendment.layer > 2 ==> error == Some(
                StarkError::UnsupportedLayer { layer: amendment.layer },
            )
            &&& amendment.layer == 1 ==> error == l1_binding_error(
                chain,
                amendment,
                evidence.expected_root@,
                evidence.verified,
            )
            &&& amendment.layer == 2 ==> error == l2_binding_error(
                view,
                amendment,
                evidence.aggregate_root,
                evidence.check,
            )
        }),
{
}

proof fn lemma_digits(bytes: Seq<u8>, i: nat)
    requires
        i <= bytes.len(),
    ensures
        pow(256, i) > 0,
        little_endian(bytes) as int / pow(256, i) == little_endian(bytes.skip(i as int)),
    decreases i,
{
    reveal(pow);
    let n = little_endian(bytes) as int;
    if i == 0 {
        assert(bytes.skip(0) =~= bytes);
        assert(pow(256, 0) == 1);
    } else {
        let rest = bytes.skip(1);
        lemma_digits(rest, (i - 1) as nat);
        let p = pow(256, (i - 1) as nat);
        assert(pow(256, i) == 256 * p);
        assert(n == bytes[0] + 256 * little_endian(rest));
        assert(n / 256 == little_endian(rest));
        lemma_div_denominator(n, 256, p);
        assert(rest.skip(i - 1) =~= bytes.skip(i as int));
    }
}

/// The lower half of a root is the number whose digits to the base of 256 are its first sixteen
/// bytes, lowest first; the other bytes play no part.
pub proof fn law_lower_half_of_a_root(root: Seq<u8>, i: nat)
    requires
        root.len() == 32,
        i < 16,
    ensures
        (low_half(root) as int / pow(256, i)) % 256 == root[i as int],
        low_half(root) < 0x1_0000_0000_0000_0000_0000_0000_0000_0000,
{
    let half = root.take(16);
    lemma_digits(half, i);
    let rest = half.skip(i as int);
    assert(rest[0] == root[i as int]);
    assert(little_endian(rest) == rest[0] + 256 * little_endian(rest.skip(1)));
    lemma_little_endian_bound(half);
    lemma_whole_half();
}

/// Two roots have the same lower half exactly if their first sixteen bytes are the same.
pub proof fn law_lower_halves_tell_roots_apart(a: Seq<u8>, b: Seq<u8>)
    requires
        a.len() == 32,
        b.len() == 32,
    ensures
        low_half(a) == low_half(b) <==> forall|i: int| 0 <= i < 16 ==> #[trigger] a[i] == b[i],
{
    if low_half(a) == low_half(b) {
        assert forall|i: int| 0 <= i < 16 implies #[trigger] a[i] == b[i] by {
            law_lower_half_of_a_root(a, i as nat);
            law_lower_half_of_a_root(b, i as nat);
        }
    }
    if forall|i: int| 0 <= i < 16 ==> #[trigger] a[i] == b[i] {
        assert(a.take(16) =~= b.take(16));
    }
}

/// The number that stands for a source in a second-layer proof is the lower half of the root of its
/// stored proof.
pub proof fn law_root_of_a_source(view: StarkView, hash: ShellHash)
    requires
        is_aggregable(view, hash),
    ensures
        l2_source_error(view, hash) is None,
        source_root(view, hash) == low_half(view.proofs[hash]->batch_root@),
{
}

/// A settled first-layer amendment brings one input to the second layer, behind those before it, and
/// any other amendment brings none.
pub proof fn law_one_input_for_each_first_layer_amendment(before: Seq<ProofAmendment>, amendment: ProofAmendment)
    ensures
        amendment.layer == 1 ==> before.push(amendment).filter(is_first_layer()) == before.filter(
            is_first_layer(),
        ).push(amendment),
        amendment.layer != 1 ==> before.push(amendment).filter(is_first_layer()) == before.filter(
            is_first_layer(),
        ),
        Seq::<ProofAmendment>::empty().filter(is_first_layer()).len() == 0,
{
    reveal(Seq::filter);
    assert(before.push(amendment).drop_last() =~= before);
}

/// The input of an amendment stands for the whole range of the amendment, up to its target and by the
/// lower half of its root.
pub proof fn law_input_stands_for_its_range(input: SettledL1Input, amendment: ProofAmendment)
    requires
        is_input_of(input, amendment),
    ensures
        amendment.range_start matches Some(start) ==> input.start_block == start,
        amendment.range_start is None ==> input.start_block == amendment.block_number,
        input.end_block == amendment.block_number,
        input.source_hash == amendment.block_hash,
        input.batch_root == low_half(amendment.batch_root@),
{
}

/// A job over consecutive ranges covers them all, from the first height of the first to the last
/// height of the last, with one source and one root for each, and waits to be worked on.
pub proof fn law_job_covers_its_inputs(job: L2AggregationJob, inputs: Seq<SettledL1Input>, current_block: u64, i: int)
    requires
        is_job_over(job, inputs, current_block),
        0 <= i < inputs.len(),
        forall|a: int, b: int|
            0 <= a < b < inputs.len() ==> (#[trigger] inputs[a]).end_block < (
            #[trigger] inputs[b]).start_block,
        forall|a: int|
            0 <= a < inputs.len() ==> (#[trigger] inputs[a]).start_block <= inputs[a].end_block,
    ensures
        job.start_block <= inputs[i].start_block,
        inputs[i].end_block <= job.end_block,
        exists|a: int| 0 <= a < inputs.len() && (#[trigger] inputs[a]).start_block == job.start_block,
        exists|a: int| 0 <= a < inputs.len() && (#[trigger] inputs[a]).end_block == job.end_block,
        job.l1_source_hashes@.len() == inputs.len(),
        job.l1_batch_roots@.len() == inputs.len(),
        job.l1_source_hashes@[i] == inputs[i].source_hash,
        low_half(job.l1_batch_roots@[i]@) == inputs[i].batch_root,
        forall|k: int| 16 <= k < 32 ==> #[trigger] job.l1_batch_roots@[i]@[k] == 0,
        job.status == L2JobStatus::Ready,
        job.retry_count == 0,
        job.aggregate_root is None,
        job.last_error is None,
        job.created_at_block == current_block,
        job.updated_at_block == current_block,
{
    let last = inputs.len() - 1;
    assert(inputs[0].start_block == job.start_block);
    assert(inputs[last].end_block == job.end_block);
    if i > 0 {
        assert(inputs[0].end_block < inputs[i].start_block);
        assert(inputs[0].start_block <= inputs[0].end_block);
    }
    if i < last {
        assert(inputs[i].end_block < inputs[last].start_block);
        assert(inputs[last].start_block <= inputs[last].end_block);
    }
    assert(job.l1_source_hashes@[i] == inputs[i].source_hash);
    let root = job.l1_batch_roots@[i];
}

/// A block has signatures exactly if one of its transactions has one; taking the signatures of all of
/// them away leaves none.
pub proof fn law_one_signature_is_enough(before: Seq<SignedTransaction>, tx: SignedTransaction)
    ensures
        has_signatures(before.push(tx)) <==> has_signatures(before) || tx.signature_len > 0,
        !has_signatures(Seq::empty()),
{
    let all = before.push(tx);
    if has_signatures(before) {
        let i = choose|i: int| 0 <= i < before.len() && (#[trigger] before[i]).signature_len > 0;
        assert(all[i].signature_len > 0);
    }
    assert(all[before.len() as int] == tx);
    if has_signatures(all) {
        let i = choose|i: int| 0 <= i < all.len() && (#[trigger] all[i]).signature_len > 0;
        if i < before.len() {
            assert(before[i].signature_len > 0);
        }
    }
}

/// What an estimate counts is no fewer than the transactions and no fewer than the entries, and it is
/// one of the two numbers.
pub proof fn law_longer_of_two(a: nat, b: nat)
    ensures
        longer(a, b) >= a,
        longer(a, b) >= b,
        longer(a, b) == a || longer(a, b) == b,
{
}

/// What a proof is paid is the mint of its layer as often as it has sources that count: those with
/// transactions in the first layer, all of them above, and at least one.
pub proof fn law_what_a_proof_is_paid(
    chain: ChainStore,
    amendment: ProofAmendment,
    paid: Result<U256, StarkError>,
)
    requires
        call_ensures(stark_reward_value, (&chain, &amendment), paid),
    ensures
        ({
            let view = chain@;
            let earning = Set::new(
                |i: int|
                    0 <= i < amendment.covered@.len() && view.blocks[amendment.covered@[i]].transactions.len()
                        > 0,
            );
            let mints: nat = if amendment.layer == 1 {
                earning.len()
            } else {
                amendment.covered@.len()
            };
            &&& paid matches Ok(value) ==> value.value() == layer_mint(amendment.layer as nat) * if mints
                == 0 {
                1
            } else {
                mints
            }
            &&& paid is Ok <==> amendment.compression_valid && (amendment.layer == 1 ==> (
            amendment.n_sigs == 0 || amendment.n_sigs >= 512) && forall|i: int|
                0 <= i < amendment.covered@.len() ==> view.blocks.contains_key(
                    #[trigger] amendment.covered@[i],
                ))
        }),
{
    law_one_mint_for_each_source(chain@, amendment);
    if amendment.covered@.len() > 0 {
        law_proofs_that_are_rewarded(chain@, amendment, 0);
    } else {
        assert(Set::new(
            |i: int|
                0 <= i < amendment.covered@.len() && chain@.blocks[amendment.covered@[i]].transactions.len()
                    > 0,
        ) =~= Set::<int>::empty());
    }
}

/// A reward goes to the prover, for the block that the proof ends with, with the sizes that the proof
/// states or, where it states none of its own, has; a proof that does not say what it replaces gets
/// none.
pub proof fn law_who_is_paid_for_what(
    chain: ChainStore,
    chain_id: u64,
    block_number: u64,
    tx_index: u32,
    amendment: ProofAmendment,
    built: Result<StarkRewardParams, StarkError>,
)
    requires
        call_ensures(
            build_stark_reward_tx,
            (&chain, chain_id, block_number, tx_index, &amendment),
            built,
        ),
    ensures
        amendment.original_size is None ==> built is Err,
        built matches Ok(p) ==> {
            &&& p.recipient == amendment.prover
            &&& p.source_hash == amendment.block_hash
            &&& p.layer == amendment.layer
            &&& Some(p.original_size) == amendment.original_size
            &&& amendment.compressed_size is Some ==> Some(p.compressed_size)
                == amendment.compressed_size
            &&& amendment.compressed_size is None ==> p.compressed_size == amendment.size_bytes
            &&& p.chain_id == chain_id
            &&& p.block_number == block_number
            &&& p.tx_index == tx_index
        },
{
}

/// The size of the signatures that a proof replaces: none without entries; else that of the stored
/// ones; else that of those in the block, where some transaction still has one; else 3317 bytes
/// for each transaction or entry, whichever are more.
pub proof fn law_size_of_what_is_replaced(
    state: StarkState,
    source: ShellHash,
    block: Block,
    entries: usize,
    carried: Option<u64>,
    size: u64,
)
    requires
        call_ensures(stark_source_original_size, (&state, &source, &block, entries, carried), size),
    ensures
        ({
            let stored = state@.witnesses.contains_key(source);
            let signed = exists|i: int|
                0 <= i < block.transactions@.len() && (
                #[trigger] block.transactions@[i]).signature_len > 0;
            &&& entries == 0 ==> size == 0
            &&& entries > 0 && stored ==> size == state@.witnesses[source]
            &&& entries > 0 && !stored && signed && carried is Some ==> size == carried->0
            &&& entries > 0 && !stored && !(signed && carried is Some) ==> {
                &&& size >= 3_317 * entries
                &&& size >= 3_317 * block.transactions@.len()
                &&& size == 3_317 * entries || size == 3_317 * block.transactions@.len()
            }
        }),
{
    let txs = block.transactions@;
    assert(has_signatures(txs) <==> exists|i: int|
        0 <= i < txs.len() && (#[trigger] txs[i]).signature_len > 0);
    law_longer_of_two(txs.len(), entries as nat);
}

/// What the second layer is fed is one input for each first-layer amendment, in order, and nothing
/// where the second layer is switched off.
pub proof fn law_what_the_second_layer_is_fed(
    settlements: Vec<ProofAmendment>,
    enabled: bool,
    fed: Vec<SettledL1Input>,
    i: int,
)
    requires
        call_ensures(feed_l2_scheduler_from_settlements, (&settlements, enabled), fed),
    ensures
        !enabled ==> fed@.len() == 0,
        fed@.len() <= settlements@.len(),
        0 <= i < fed@.len() ==> exists|k: int|
            0 <= k < settlements@.len() && (#[trigger] settlements@[k]).layer == 1
                && settlements@[k].block_hash == fed@[i].source_hash && settlements@[k].block_number
                == fed@[i].end_block,
        enabled && (forall|k: int|
            0 <= k < settlements@.len() ==> (#[trigger] settlements@[k]).layer == 1) ==> fed@.len()
            == settlements@.len(),
{
    let first = settlements@.filter(is_first_layer());
    lemma_first_layer_members(settlements@);
    if enabled && 0 <= i < fed@.len() {
        assert(is_input_of(fed@[i], first[i]));
        let k = choose|k: int|
            0 <= k < settlements@.len() && #[trigger] settlements@[k] == first[i] && first[i].layer
                == 1;
        assert(settlements@[k].layer == 1);
    }
}

proof fn lemma_first_layer_members(settlements: Seq<ProofAmendment>)
    ensures
        ({
            let first = settlements.filter(is_first_layer());
            &&& first.len() <= settlements.len()
            &&& forall|i: int|
                0 <= i < first.len() ==> exists|k: int|
                    0 <= k < settlements.len() && #[trigger] settlements[k] == #[trigger] first[i]
                        && first[i].layer == 1
            &&& (forall|k: int|
                0 <= k < settlements.len() ==> (#[trigger] settlements[k]).layer == 1)
                ==> first.len() == settlements.len()
        }),
    decreases settlements.len(),
{
    reveal(Seq::filter);
    if settlements.len() > 0 {
        let init = settlements.drop_last();
        lemma_first_layer_members(init);
        let first = settlements.filter(is_first_layer());
        let before = init.filter(is_first_layer());
        assert forall|i: int| 0 <= i < first.len() implies exists|k: int|
            0 <= k < settlements.len() && #[trigger] settlements[k] == #[trigger] first[i]
                && first[i].layer == 1 by {
            if i < before.len() {
                assert(first[i] == before[i]);
                let k = choose|k: int|
                    0 <= k < init.len() && #[trigger] init[k] == before[i] && before[i].layer == 1;
                assert(settlements[k] == first[i]);
            } else {
                assert(settlements[settlements.len() - 1] == first[i]);
            }
        }
        if forall|k: int| 0 <= k < settlements.len() ==> (#[trigger] settlements[k]).layer == 1 {
            assert forall|k: int| 0 <= k < init.len() implies (#[trigger] init[k]).layer == 1 by {
                assert(settlements[k] == init[k]);
            }
            assert(settlements[settlements.len() - 1].layer == 1);
        }
    }
}

/// The settlements that were framed into a block's extra data are read back as they were, and a block
/// without settlements has none to read.
pub proof fn law_framed_settlements_are_read_back(
    payload: Option<Vec<u8>>,
    framed: Vec<u8>,
    read: Option<Vec<u8>>,
)
    requires
        call_ensures(encode_system_extra, (payload,), framed),
        call_ensures(decode_system_extra, (&framed,), read),
    ensures
        payload is None ==> framed@.len() == 0 && read is None,
        payload matches Some(bytes) ==> read is Some && read->0@ == bytes@,
        payload matches Some(bytes) ==> framed@.len() == bytes@.len() + 22,
{
    match payload {
        Some(bytes) => {
            law_system_extra_round_trip(bytes@);
        },
        None => {
            law_system_extra_round_trip(Seq::empty());
        },
    }
}

/// A job is made exactly if it is known that none over the same proofs is stored.
pub proof fn law_jobs_are_made_once(
    inputs: Vec<SettledL1Input>,
    current_block: u64,
    stored: Result<bool, StorageError>,
    job: Option<L2AggregationJob>,
)
    requires
        call_ensures(create_l2_job_from_trigger, (&inputs, current_block, &stored), job),
    ensures
        stored == Ok::<bool, StorageError>(true) ==> job is None,
        stored is Err ==> job is None,
        stored == Ok::<bool, StorageError>(false) ==> job is Some,
        job matches Some(new) ==> new.l1_source_hashes@.len() == inputs@.len()
            && new.created_at_block == current_block,
{
}

/// A job over no proofs stands at the height at which it was made.
pub proof fn law_a_job_over_nothing(job: L2AggregationJob, inputs: Seq<SettledL1Input>, current_block: u64)
    requires
        is_job_over(job, inputs, current_block),
        inputs.len() == 0,
    ensures
        job.start_block == current_block,
        job.end_block == current_block,
        job.l1_source_hashes@.len() == 0,
        job.l1_batch_roots@.len() == 0,
{
}

/// What a second-layer proof is made over: the lower halves of the roots of its sources' proofs, in the
/// order of the sources, and the range of the amendment. There is nothing to make it over unless every
/// source can go into it.
pub proof fn law_what_second_layer_proofs_are_over(
    state: StarkState,
    amendment: ProofAmendment,
    inputs: Result<RecursiveInputs, StarkError>,
    i: int,
)
    requires
        call_ensures(l2_source_roots, (&state, &amendment), inputs),
        0 <= i < amendment.covered@.len(),
    ensures
        inputs is Ok <==> forall|j: int|
            0 <= j < amendment.covered@.len() ==> is_aggregable(
                state@,
                #[trigger] amendment.covered@[j],
            ),
        inputs matches Ok(over) ==> {
            &&& over.l1_roots@.len() == amendment.covered@.len()
            &&& over.l1_roots@[i] == low_half(state@.proofs[amendment.covered@[i]]->batch_root@)
            &&& over.end_block == amendment.block_number
            &&& amendment.range_start matches Some(start) ==> over.start_block == start
        },
{
    lemma_l2_sources(state@, amendment.covered@, 0);
    if inputs is Ok {
        assert(is_aggregable(state@, amendment.covered@[i]));
        law_root_of_a_source(state@, amendment.covered@[i]);
        assert(inputs->Ok_0.l1_roots@[i] == source_root(state@, amendment.covered@[i]));
    }
}

/// The blocks that a first-layer proof is made over are those that its amendment covers, in order, and
/// all of them are known.
pub proof fn law_what_first_layer_proofs_are_over(
    chain: ChainStore,
    amendment: ProofAmendment,
    blocks: Result<Vec<Block>, StarkError>,
    i: int,
)
    requires
        call_ensures(l1_source_blocks, (&chain, &amendment), blocks),
        0 <= i < amendment.covered@.len(),
    ensures
        blocks is Ok <==> forall|j: int|
            0 <= j < amendment.covered@.len() ==> chain@.blocks.contains_key(
                #[trigger] amendment.covered@[j],
            ),
        blocks matches Ok(found) ==> found@.len() == amendment.covered@.len() && found@[i]@
            == chain@.blocks[amendment.covered@[i]],
{
    let sources = amendment.covered@;
    lemma_first_unknown(chain@, sources, 0);
    if first_unknown_source(chain@, sources, 0) is Some {
        let hash = first_unknown_source(chain@, sources, 0)->0;
        let k = choose|k: int|
            0 <= k < sources.len() && #[trigger] sources[k] == hash && !chain@.blocks.contains_key(
                hash,
            ) && forall|j: int| 0 <= j < k ==> chain@.blocks.contains_key(#[trigger] sources[j]);
        assert(!chain@.blocks.contains_key(sources[k]));
    }
    if blocks is Ok {
        let found = blocks->Ok_0@;
        assert(crate::fork::views(found)[i] == crate::fork::blocks_of(chain@, sources)[i]);
        assert(crate::fork::views(found).len() == sources.len());
    }
}

/// Artifacts are stored, all of them, exactly if they could be serialized and written.
pub proof fn law_artifacts_are_stored_together(
    block_number: u64,
    artifacts: Result<usize, String>,
    written: Result<(), StorageError>,
    stored: Result<usize, NodeError>,
)
    requires
        call_ensures(store_stark_artifacts, (block_number, artifacts, written), stored),
    ensures
        stored is Ok <==> artifacts is Ok && written is Ok,
        stored matches Ok(count) ==> count == artifacts->Ok_0,
{
}

} // verus!
