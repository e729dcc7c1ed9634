//! Proof amendments: which sources a proof covers, how far each layer of compression has got, and
//! which amendment comes next.
//!
//! A source is a canonical block. The first layer replaces the signatures of a run of blocks by one
//! proof, each further layer the proofs of the layer below. Every layer advances without gaps: an
//! amendment starts at the first block that its layer has not covered.

use vstd::prelude::*;

use crate::chain::{ChainStore, ChainView};
use crate::error::StarkError;
use crate::primitives::{Address, Key, ShellHash};
use crate::table::Table;

verus! {

/// The least number of signatures that a first-layer proof covers, unless it covers none.
pub const MIN_L1_STARK_TXS: usize = 512;

/// A proof that stands in for the signatures or proofs of a run of blocks.
#[derive(Debug)]
pub struct ProofAmendment {
    /// The last block that it covers.
    pub block_hash: ShellHash,
    /// Height of that block.
    pub block_number: u64,
    /// Height of the first block that it covers, where the range has room for its sources.
    pub range_start: Option<u64>,
    /// The layer of compression.
    pub layer: u32,
    /// The blocks that it covers, lowest first.
    pub covered: Vec<ShellHash>,
    /// The number of signatures, or of proofs of the layer below, that the proof is over.
    pub n_sigs: usize,
    /// The root of what the proof is over.
    pub batch_root: [u8; 32],
    /// Length of the proof in bytes.
    pub proof_len: usize,
    /// Whether the sizes that it states satisfy the compression threshold.
    pub compression_valid: bool,
    /// Account of the prover.
    pub prover: Address,
    /// Size of what it replaces, in bytes.
    pub original_size: Option<u64>,
    /// Size of the proof as stated, in bytes.
    pub compressed_size: Option<u64>,
    /// Size of the amendment, in bytes.
    pub size_bytes: u64,
}

/// A source together with a layer of compression.
#[derive(Clone, Copy, Debug)]
pub struct LayeredSource {
    /// The layer.
    pub layer: u32,
    /// The source.
    pub hash: ShellHash,
}

impl Key for LayeredSource {
    fn same(&self, other: &Self) -> (r: bool) {
        self.layer == other.layer && self.hash == other.hash
    }
}

/// A source together with a layer of compression.
pub open spec fn at_layer(layer: u32, hash: ShellHash) -> LayeredSource {
    LayeredSource { layer, hash }
}

/// A stored proof, as far as it can be read.
#[derive(Debug)]
pub enum StoredProof {
    /// The stored bytes are no amendment.
    Undecodable {
        /// What reading them came to.
        detail: String,
    },
    /// The stored amendment's layer and root.
    Decoded {
        /// The layer of compression.
        layer: u32,
        /// The root of what the proof is over.
        batch_root: [u8; 32],
    },
}

/// The state of compression as a mathematical value.
#[verifier::ext_equal]
pub struct StarkView {
    /// The sources that are settled, with the layers.
    pub settled: Set<LayeredSource>,
    /// The stored proofs, by source.
    pub proofs: Map<ShellHash, StoredProof>,
    /// The sources whose signatures are stored, with their sizes in bytes.
    pub witnesses: Map<ShellHash, u64>,
    /// A height for each layer below which every source is settled.
    pub frontiers: Map<u32, u64>,
    /// The targets of settled first-layer amendments: what second-layer proofs are made over.
    pub l2_inputs: Set<ShellHash>,
}

/// The state of compression: what is settled, what is stored, and what waits to be settled.
pub struct StarkState {
    settled: Table<LayeredSource, ()>,
    proofs: Table<ShellHash, StoredProof>,
    witnesses: Table<ShellHash, u64>,
    frontiers: Table<u32, u64>,
    l2_inputs: Table<ShellHash, ()>,
    pending: Vec<ProofAmendment>,
}

impl View for StarkState {
    type V = StarkView;

    closed spec fn view(&self) -> StarkView {
        StarkView {
            settled: self.settled@.dom(),
            proofs: self.proofs@,
            witnesses: self.witnesses@,
            frontiers: self.frontiers@,
            l2_inputs: self.l2_inputs@.dom(),
        }
    }
}

/// The layers of some sources with those of an amendment's first `n` added.
pub open spec fn overlay_with(
    overlay: Map<ShellHash, u32>,
    covered: Seq<ShellHash>,
    layer: u32,
    n: nat,
) -> Map<ShellHash, u32>
    decreases n,
{
    if n == 0 {
        overlay
    } else {
        overlay_with(overlay, covered, layer, (n - 1) as nat).insert(covered[n - 1], layer)
    }
}

/// The layers of some sources with those of an amendment added.
pub open spec fn overlaid(overlay: Map<ShellHash, u32>, amendment: ProofAmendment) -> Map<
    ShellHash,
    u32,
> {
    overlay_with(overlay, amendment.covered@, amendment.layer, amendment.covered@.len())
}

/// The layers that the first `n` of some amendments give their sources, later ones over earlier
/// ones.
pub open spec fn overlay_of(amendments: Seq<ProofAmendment>, n: nat) -> Map<ShellHash, u32>
    decreases n,
{
    if n == 0 {
        Map::empty()
    } else {
        overlaid(overlay_of(amendments, (n - 1) as nat), amendments[n - 1])
    }
}

/// The settled sources with those of an amendment's first `n` added.
pub open spec fn settled_with(
    settled: Set<LayeredSource>,
    covered: Seq<ShellHash>,
    layer: u32,
    n: nat,
) -> Set<LayeredSource>
    decreases n,
{
    if n == 0 {
        settled
    } else {
        settled_with(settled, covered, layer, (n - 1) as nat).insert(at_layer(layer, covered[n - 1]))
    }
}

/// The settled sources once the first `n` of some amendments are settled.
pub open spec fn settled_by(
    settled: Set<LayeredSource>,
    amendments: Seq<ProofAmendment>,
    n: nat,
) -> Set<LayeredSource>
    decreases n,
{
    if n == 0 {
        settled
    } else {
        let a = amendments[n - 1];
        settled_with(
            settled_by(settled, amendments, (n - 1) as nat),
            a.covered@,
            a.layer,
            a.covered@.len(),
        )
    }
}

/// The second-layer inputs once the first `n` of some amendments are settled.
pub open spec fn l2_inputs_by(inputs: Set<ShellHash>, amendments: Seq<ProofAmendment>, n: nat) -> Set<
    ShellHash,
>
    decreases n,
{
    if n == 0 {
        inputs
    } else if amendments[n - 1].layer == 1 {
        l2_inputs_by(inputs, amendments, (n - 1) as nat).insert(amendments[n - 1].block_hash)
    } else {
        l2_inputs_by(inputs, amendments, (n - 1) as nat)
    }
}

/// The layer up to which a source is compressed: what is about to be settled counts before what is.
pub open spec fn layer_of(view: StarkView, overlay: Map<ShellHash, u32>, hash: ShellHash) -> u32 {
    if overlay.contains_key(hash) {
        overlay[hash]
    } else if view.settled.contains(at_layer(3, hash)) {
        3
    } else if view.settled.contains(at_layer(2, hash)) {
        2
    } else if view.settled.contains(at_layer(1, hash)) {
        1
    } else {
        0
    }
}

/// Whether there is something to compress at a source.
pub open spec fn is_source(
    chain: ChainView,
    view: StarkView,
    overlay: Map<ShellHash, u32>,
    hash: ShellHash,
) -> bool {
    overlay.contains_key(hash) || view.proofs.contains_key(hash) || view.witnesses.contains_key(hash)
        || chain.headers.contains_key(hash)
}

/// Whether the canonical block of a height is a source that a layer has still to cover.
pub open spec fn is_open(
    chain: ChainView,
    view: StarkView,
    overlay: Map<ShellHash, u32>,
    layer: u32,
    number: u64,
) -> bool {
    &&& chain.canonical.contains_key(number)
    &&& is_source(chain, view, overlay, chain.canonical[number])
    &&& layer_of(view, overlay, chain.canonical[number]) < layer
}

/// The first height from `number` up to the head that a layer has still to cover, or the one after
/// the head.
pub open spec fn frontier_from(
    chain: ChainView,
    view: StarkView,
    overlay: Map<ShellHash, u32>,
    layer: u32,
    number: int,
    head: u64,
) -> u64
    decreases head + 1 - number,
{
    if number > head {
        if head == u64::MAX {
            u64::MAX
        } else {
            (head + 1) as u64
        }
    } else if is_open(chain, view, overlay, layer, number as u64) {
        number as u64
    } else {
        frontier_from(chain, view, overlay, layer, number + 1, head)
    }
}

/// Height of the head, or zero where there is none.
pub open spec fn head_height(chain: ChainView) -> u64 {
    match chain.head_block() {
        Some(head) => head.header.number,
        None => 0,
    }
}

/// The height at which the next amendment of a layer starts.
pub open spec fn frontier(
    chain: ChainView,
    view: StarkView,
    overlay: Map<ShellHash, u32>,
    layer: u32,
) -> u64 {
    let from = if view.frontiers.contains_key(layer) {
        view.frontiers[layer]
    } else {
        0
    };
    frontier_from(chain, view, overlay, layer, from as int, head_height(chain))
}

/// What is wrong with the source at position `i` of an amendment that starts at `start`.
pub open spec fn source_error(
    chain: ChainView,
    view: StarkView,
    overlay: Map<ShellHash, u32>,
    amendment: ProofAmendment,
    start: u64,
    i: int,
) -> Option<StarkError> {
    let number = (start + i) as u64;
    let hash = amendment.covered@[i];
    let current_layer = layer_of(view, overlay, hash);
    if !chain.canonical.contains_key(number) {
        Some(StarkError::MissingCanonical { number })
    } else if chain.canonical[number] != hash {
        Some(StarkError::NotCanonical { number, canonical: chain.canonical[number], hash })
    } else if !is_source(chain, view, overlay, hash) {
        Some(StarkError::NotCompressible { number })
    } else if current_layer >= amendment.layer {
        Some(StarkError::Overlap { number, current_layer })
    } else if amendment.layer > 1 && current_layer + 1 != amendment.layer {
        Some(StarkError::LowerLayer { layer: amendment.layer, number, current_layer })
    } else {
        None
    }
}

/// What is wrong with the first faulty source among the first `n` of an amendment.
pub open spec fn sources_error(
    chain: ChainView,
    view: StarkView,
    overlay: Map<ShellHash, u32>,
    amendment: ProofAmendment,
    start: u64,
    n: nat,
) -> Option<StarkError>
    decreases n,
{
    if n == 0 {
        None
    } else {
        match sources_error(chain, view, overlay, amendment, start, (n - 1) as nat) {
            Some(e) => Some(e),
            None => source_error(chain, view, overlay, amendment, start, n - 1),
        }
    }
}

/// What is wrong with an amendment in itself.
pub open spec fn shape_error(amendment: ProofAmendment) -> Option<StarkError> {
    let covered = amendment.covered@;
    let end = amendment.block_number;
    if amendment.layer == 0 {
        Some(StarkError::LayerZero)
    } else if !amendment.compression_valid {
        Some(StarkError::AmendmentCompression)
    } else if amendment.layer == 1 && 0 < amendment.n_sigs < MIN_L1_STARK_TXS {
        Some(StarkError::AmendmentTooFew { n_sigs: amendment.n_sigs })
    } else if covered.len() == 0 {
        Some(StarkError::NoSources)
    } else if covered.last() != amendment.block_hash {
        Some(StarkError::TargetMismatch { target: amendment.block_hash })
    } else {
        match amendment.range_start {
            None => Some(StarkError::RangeShort { end, count: covered.len() as usize }),
            Some(start) => if start + covered.len() > u64::MAX {
                Some(StarkError::RangeOverflow)
            } else if start + covered.len() - 1 != end {
                Some(
                    StarkError::RangeEnd {
                        start,
                        expected_end: (start + covered.len() - 1) as u64,
                        end,
                    },
                )
            } else {
                None
            },
        }
    }
}

/// Why an amendment does not come next, if it does not.
pub open spec fn ordering_error(
    chain: ChainView,
    view: StarkView,
    overlay: Map<ShellHash, u32>,
    amendment: ProofAmendment,
) -> Option<StarkError> {
    let start = amendment.range_start->0;
    let sources = sources_error(
        chain,
        view,
        overlay,
        amendment,
        start,
        amendment.covered@.len(),
    );
    let next = frontier(chain, view, overlay, amendment.layer);
    if shape_error(amendment) is Some {
        shape_error(amendment)
    } else if sources is Some {
        sources
    } else if start != next {
        Some(StarkError::Frontier { layer: amendment.layer, frontier: next, start })
    } else {
        None
    }
}

/// What is wrong with the first faulty amendment among the first `n` of a sequence, each of which
/// counts on those before it.
pub open spec fn sequence_error(
    chain: ChainView,
    view: StarkView,
    amendments: Seq<ProofAmendment>,
    n: nat,
) -> Option<StarkError>
    decreases n,
{
    if n == 0 {
        None
    } else {
        match sequence_error(chain, view, amendments, (n - 1) as nat) {
            Some(e) => Some(e),
            None => ordering_error(
                chain,
                view,
                overlay_of(amendments, (n - 1) as nat),
                amendments[n - 1],
            ),
        }
    }
}

proof fn lemma_first_source_fault(
    chain: ChainView,
    view: StarkView,
    overlay: Map<ShellHash, u32>,
    amendment: ProofAmendment,
    start: u64,
    m: nat,
    n: nat,
)
    requires
        m <= n,
        sources_error(chain, view, overlay, amendment, start, m) is Some,
    ensures
        sources_error(chain, view, overlay, amendment, start, n) == sources_error(
            chain,
            view,
            overlay,
            amendment,
            start,
            m,
        ),
    decreases n,
{
    if m < n {
        lemma_first_source_fault(chain, view, overlay, amendment, start, m, (n - 1) as nat);
    }
}

proof fn lemma_first_sequence_fault(
    chain: ChainView,
    view: StarkView,
    amendments: Seq<ProofAmendment>,
    m: nat,
    n: nat,
)
    requires
        m <= n,
        sequence_error(chain, view, amendments, m) is Some,
    ensures
        sequence_error(chain, view, amendments, n) == sequence_error(chain, view, amendments, m),
    decreases n,
{
    if m < n {
        lemma_first_sequence_fault(chain, view, amendments, m, (n - 1) as nat);
    }
}

fn add_overlay(overlay: &mut Table<ShellHash, u32>, amendment: &ProofAmendment)
    ensures
        final(overlay)@ == overlaid(old(overlay)@, *amendment),
{
    let ghost start = overlay@;
    let mut i: usize = 0;
    while i < amendment.covered.len()
        invariant
            i <= amendment.covered@.len(),
            overlay@ == overlay_with(start, amendment.covered@, amendment.layer, i as nat),
        decreases amendment.covered.len() - i,
    {
        overlay.insert(amendment.covered[i], amendment.layer);
        i += 1;
    }
}

impl StarkState {
    /// The amendments that wait to be settled, in order.
    pub closed spec fn pending(self) -> Seq<ProofAmendment> {
        self.pending@
    }

    /// Nothing settled, stored or waiting.
    pub fn new() -> (r: Self)
        ensures
            r@ == (StarkView {
                settled: Set::empty(),
                proofs: Map::empty(),
                witnesses: Map::empty(),
                frontiers: Map::empty(),
                l2_inputs: Set::empty(),
            }),
            r.pending() == Seq::<ProofAmendment>::empty(),
    {
        let r = StarkState {
            settled: Table::new(),
            proofs: Table::new(),
            witnesses: Table::new(),
            frontiers: Table::new(),
            l2_inputs: Table::new(),
            pending: Vec::new(),
        };
        assert(r@.settled =~= Set::empty());
        assert(r@.l2_inputs =~= Set::empty());
        r
    }

    /// The state of compression as a store holds it: the proofs, the signatures with their sizes, and
    /// the inputs of the second layer. What is settled is not known yet; see
    /// [`StarkState::restore_settled`].
    pub fn with_stored(
        proofs: Table<ShellHash, StoredProof>,
        witnesses: Table<ShellHash, u64>,
        l2_inputs: Table<ShellHash, ()>,
    ) -> (r: Self)
        ensures
            r@ == (StarkView {
                settled: Set::empty(),
                proofs: proofs@,
                witnesses: witnesses@,
                frontiers: Map::empty(),
                l2_inputs: l2_inputs@.dom(),
            }),
            r.pending() == Seq::<ProofAmendment>::empty(),
    {
        let r = StarkState {
            settled: Table::new(),
            proofs,
            witnesses,
            frontiers: Table::new(),
            l2_inputs,
            pending: Vec::new(),
        };
        assert(r@.settled =~= Set::empty());
        r
    }

    /// Takes over the sources that a store has recorded as settled, with their layers.
    pub fn restore_settled(&mut self, sources: &Vec<LayeredSource>)
        ensures
            final(self)@ == (StarkView {
                settled: old(self)@.settled.union(sources@.to_set()),
                ..old(self)@
            }),
            final(self).pending() == old(self).pending(),
    {
        let ghost start = self@;
        let ghost waiting = self.pending();
        let mut i: usize = 0;
        assert(start.settled.union(sources@.take(0).to_set()) =~= start.settled);
        while i < sources.len()
            invariant
                i <= sources@.len(),
                self@.settled == start.settled.union(sources@.take(i as int).to_set()),
                self@ == (StarkView { settled: self@.settled, ..start }),
                self.pending() == waiting,
            decreases sources.len() - i,
        {
            let source = sources[i];
            let ghost before = self@.settled;
            self.settled.insert(source, ());
            proof {
                let fewer = sources@.take(i as int);
                let more = sources@.take(i + 1);
                assert(more =~= fewer.push(source));
                assert forall|s: LayeredSource| more.contains(s) <==> fewer.contains(s) || s
                    == source by {
                    if fewer.contains(s) {
                        let j = choose|j: int| 0 <= j < fewer.len() && fewer[j] == s;
                        assert(more[j] == s);
                    }
                    assert(more[i as int] == source);
                }
                assert(self@.settled =~= before.insert(source));
                assert(self@.settled =~= start.settled.union(more.to_set()));
            }
            i += 1;
        }
        assert(sources@.take(i as int) =~= sources@);
    }

    /// Notes the proof that is stored for a source.
    pub fn put_proof(&mut self, source: ShellHash, proof: StoredProof)
        ensures
            final(self)@ == (StarkView {
                proofs: old(self)@.proofs.insert(source, proof),
                ..old(self)@
            }),
            final(self).pending() == old(self).pending(),
    {
        self.proofs.insert(source, proof);
    }

    /// The proof that is stored for a source.
    pub fn get_proof(&self, source: &ShellHash) -> (r: Option<&StoredProof>)
        ensures
            match r {
                Some(p) => self@.proofs.contains_key(*source) && self@.proofs[*source] == *p,
                None => !self@.proofs.contains_key(*source),
            },
    {
        self.proofs.get(source)
    }

    /// Notes that the signatures of a source are stored, with their size.
    pub fn put_witness(&mut self, source: ShellHash, size: u64)
        ensures
            final(self)@ == (StarkView {
                witnesses: old(self)@.witnesses.insert(source, size),
                ..old(self)@
            }),
            final(self).pending() == old(self).pending(),
    {
        self.witnesses.insert(source, size);
    }

    /// Notes that the signatures of a source are no longer stored.
    pub fn delete_witness(&mut self, source: &ShellHash)
        ensures
            final(self)@ == (StarkView {
                witnesses: old(self)@.witnesses.remove(*source),
                ..old(self)@
            }),
            final(self).pending() == old(self).pending(),
    {
        self.witnesses.remove(source);
    }

    /// The size of a source's stored signatures.
    pub fn witness_size(&self, source: &ShellHash) -> (r: Option<u64>)
        ensures
            match r {
                Some(n) => self@.witnesses.contains_key(*source) && self@.witnesses[*source] == n,
                None => !self@.witnesses.contains_key(*source),
            },
    {
        match self.witnesses.get(source) {
            Some(n) => Some(*n),
            None => None,
        }
    }

    /// Records a height below which every source of a layer is settled.
    pub fn set_frontier(&mut self, layer: u32, number: u64)
        ensures
            final(self)@ == (StarkView {
                frontiers: old(self)@.frontiers.insert(layer, number),
                ..old(self)@
            }),
            final(self).pending() == old(self).pending(),
    {
        self.frontiers.insert(layer, number);
    }

    /// Queues an amendment for settlement.
    pub fn push_pending(&mut self, amendment: ProofAmendment)
        ensures
            final(self)@ == old(self)@,
            final(self).pending() == old(self).pending().push(amendment),
    {
        self.pending.push(amendment);
    }

    /// Takes all amendments that wait.
    pub fn take_pending_stark_settlements(&mut self) -> (r: Vec<ProofAmendment>)
        ensures
            r@ == old(self).pending(),
            final(self).pending() == Seq::<ProofAmendment>::empty(),
            final(self)@ == old(self)@,
    {
        let mut taken: Vec<ProofAmendment> = Vec::new();
        std::mem::swap(&mut taken, &mut self.pending);
        taken
    }

    /// Puts amendments back, in front of those that have come to wait since.
    pub fn restore_pending_stark_settlements(&mut self, settlements: Vec<ProofAmendment>)
        ensures
            final(self).pending() == settlements@ + old(self).pending(),
            final(self)@ == old(self)@,
    {
        let ghost restored = settlements@;
        let mut all = settlements;
        all.append(&mut self.pending);
        self.pending = all;
        assert(self.pending@ =~= restored + old(self).pending());
    }

    /// Whether a source is settled at a layer.
    pub fn has_settled_source(&self, layer: u32, source: ShellHash) -> (r: bool)
        ensures
            r == self@.settled.contains(at_layer(layer, source)),
    {
        self.settled.contains_key(&LayeredSource { layer, hash: source })
    }

    /// Whether a block is the target of a settled first-layer amendment.
    pub fn has_l2_input(&self, hash: &ShellHash) -> (r: bool)
        ensures
            r == self@.l2_inputs.contains(*hash),
    {
        self.l2_inputs.contains_key(hash)
    }

    /// Records the sources of some amendments as settled at their layers, and the targets of those
    /// of the first layer as inputs for the second.
    pub fn record_settled_sources(&mut self, amendments: &Vec<ProofAmendment>)
        ensures
            final(self)@ == (StarkView {
                settled: settled_by(old(self)@.settled, amendments@, amendments@.len()),
                l2_inputs: l2_inputs_by(old(self)@.l2_inputs, amendments@, amendments@.len()),
                ..old(self)@
            }),
            final(self).pending() == old(self).pending(),
    {
        let ghost start = self@;
        let ghost queue = self.pending();
        let mut n: usize = 0;
        while n < amendments.len()
            invariant
                n <= amendments@.len(),
                self.pending() == queue,
                self@ == (StarkView {
                    settled: settled_by(start.settled, amendments@, n as nat),
                    l2_inputs: l2_inputs_by(start.l2_inputs, amendments@, n as nat),
                    ..start
                }),
            decreases amendments.len() - n,
        {
            let amendment = &amendments[n];
            let ghost before = self@.settled;
            let ghost inputs = self@.l2_inputs;
            let mut i: usize = 0;
            while i < amendment.covered.len()
                invariant
                    i <= amendment.covered@.len(),
                    self.pending() == queue,
                    self@ == (StarkView {
                        l2_inputs: inputs,
                        settled: settled_with(
                            before,
                            amendment.covered@,
                            amendment.layer,
                            i as nat,
                        ),
                        ..start
                    }),
                decreases amendment.covered.len() - i,
            {
                let ghost mid = self@.settled;
                self.settled.insert(
                    LayeredSource { layer: amendment.layer, hash: amendment.covered[i] },
                    (),
                );
                assert(self@.settled =~= mid.insert(
                    at_layer(amendment.layer, amendment.covered@[i as int]),
                ));
                i += 1;
            }
            if amendment.layer == 1 {
                self.l2_inputs.insert(amendment.block_hash, ());
                assert(self@.l2_inputs =~= inputs.insert(amendment.block_hash));
            }
            n += 1;
        }
    }

    /// Drops from the queue every amendment that covers a source which some amendments have just
    /// settled at its layer.
    pub fn remove_settled_pending(&mut self, amendments: &Vec<ProofAmendment>)
        ensures
            final(self)@ == old(self)@,
            final(self).pending() == old(self).pending().filter(
                still_pending(settled_by(Set::empty(), amendments@, amendments@.len())),
            ),
    {
        let ghost queue = self.pending@;
        let ghost done = settled_by(Set::empty(), amendments@, amendments@.len());
        let mut settled = StarkState::new();
        settled.record_settled_sources(amendments);
        assert(settled@.settled == done);
        let mut waiting: Vec<ProofAmendment> = Vec::new();
        std::mem::swap(&mut waiting, &mut self.pending);
        let mut kept: Vec<ProofAmendment> = Vec::new();
        proof {
            reveal(Seq::filter);
            assert(queue.take(queue.len() as int) =~= queue);
        }
        let ghost keep = still_pending(done);
        let mut n: usize = waiting.len();
        let ghost rest: Seq<ProofAmendment> = Seq::empty();
        assert(queue.skip(n as int).filter(keep) =~= rest);
        while n > 0
            invariant
                n == waiting@.len(),
                n <= queue.len(),
                waiting@ == queue.take(n as int),
                settled@.settled == done,
                keep == still_pending(done),
                kept@.reverse() == queue.skip(n as int).filter(keep),
                self.pending@ == Seq::<ProofAmendment>::empty(),
                self@ == old(self)@,
            decreases n,
        {
            match waiting.pop() {
                Some(amendment) => {
                    n -= 1;
                    proof {
                        assert(waiting@ =~= queue.take(n as int));
                        assert(queue.skip(n as int) =~= seq![amendment] + queue.skip(n + 1));
                        Seq::filter_distributes_over_add(seq![amendment], queue.skip(n + 1), keep);
                        reveal_with_fuel(Seq::filter, 2);
                        assert(seq![amendment].drop_last() =~= Seq::<ProofAmendment>::empty());
                    }
                    let covers_settled: bool = settled.covers_settled(&amendment);
                    let ghost before = kept@;
                    if !covers_settled {
                        kept.push(amendment);
                        assert(kept@.reverse() =~= seq![amendment] + before.reverse());
                    }
                    proof {
                        assert(Seq::<ProofAmendment>::empty() + before.reverse()
                            =~= before.reverse());
                        assert(kept@.reverse() =~= queue.skip(n as int).filter(keep));
                    }
                },
                None => {},
            }
        }
        assert(queue.skip(0) =~= queue);
        let mut ordered: Vec<ProofAmendment> = Vec::new();
        let ghost target = kept@.reverse();
        let mut k: usize = kept.len();
        while k > 0
            invariant
                k == kept@.len(),
                k <= target.len(),
                kept@.reverse() == target.skip(target.len() - k),
                ordered@ == target.take(target.len() - k),
            decreases k,
        {
            match kept.pop() {
                Some(amendment) => {
                    let ghost at = target.len() - k;
                    assert(target.skip(at)[0] == amendment);
                    k -= 1;
                    ordered.push(amendment);
                    proof {
                        assert(target.skip(at)[0] == target[at]);
                        assert(ordered@ =~= target.take(at + 1));
                        assert(kept@.reverse() =~= target.skip(at + 1)) by {
                            assert forall|j: int| 0 <= j < kept@.len() implies kept@.reverse()[j]
                                == target.skip(at + 1)[j] by {
                                assert(target.skip(at)[j + 1] == target.skip(at + 1)[j]);
                            }
                        }
                    }
                },
                None => {},
            }
        }
        assert(target.take(target.len() as int) =~= target);
        self.pending = ordered;
    }

    /// Whether an amendment covers a source that is settled at its layer.
    fn covers_settled(&self, amendment: &ProofAmendment) -> (r: bool)
        ensures
            r == !still_pending(self@.settled)(*amendment),
    {
        let mut i: usize = 0;
        while i < amendment.covered.len()
            invariant
                i <= amendment.covered@.len(),
                forall|j: int|
                    0 <= j < i ==> !self@.settled.contains(
                        at_layer(amendment.layer, #[trigger] amendment.covered@[j]),
                    ),
            decreases amendment.covered.len() - i,
        {
            if self.settled.contains_key(
                &LayeredSource { layer: amendment.layer, hash: amendment.covered[i] },
            ) {
                assert(self@.settled.contains(
                    at_layer(amendment.layer, amendment.covered@[i as int]),
                ));
                return true;
            }
            i += 1;
        }
        false
    }

    /// The layer up to which a source is compressed.
    pub fn compression_layer_for_source(
        &self,
        source: &ShellHash,
        overlay: &Table<ShellHash, u32>,
    ) -> (r: u32)
        ensures
            r == layer_of(self@, overlay@, *source),
    {
        match overlay.get(source) {
            Some(layer) => {
                return *layer;
            },
            None => {},
        }
        if self.has_settled_source(3, *source) {
            3
        } else if self.has_settled_source(2, *source) {
            2
        } else if self.has_settled_source(1, *source) {
            1
        } else {
            0
        }
    }

    /// Whether there is something to compress at a source: it is about to be settled, it has a
    /// stored proof or stored signatures, or its header is known.
    pub fn is_stark_compression_source(
        &self,
        chain: &ChainStore,
        source: &ShellHash,
        overlay: &Table<ShellHash, u32>,
    ) -> (r: bool)
        ensures
            r == is_source(chain@, self@, overlay@, *source),
    {
        overlay.contains_key(source) || self.proofs.contains_key(source)
            || self.witnesses.contains_key(source) || chain.get_header_by_hash(source).is_some()
    }

    /// The height at which the next amendment of a layer starts: the first canonical source that
    /// the layer has not covered, or the height after the head.
    pub fn first_canonical_block_below_layer(
        &self,
        chain: &ChainStore,
        layer: u32,
        overlay: &Table<ShellHash, u32>,
    ) -> (r: u64)
        ensures
            r == frontier(chain@, self@, overlay@, layer),
    {
        let head: u64 = match chain.get_head_block() {
            Some(block) => block.header.number,
            None => 0,
        };
        let from: u64 = match self.frontiers.get(&layer) {
            Some(number) => *number,
            None => 0,
        };
        let ghost goal = frontier(chain@, self@, overlay@, layer);
        let mut number: u64 = from;
        while number <= head
            invariant_except_break
                goal == frontier_from(chain@, self@, overlay@, layer, number as int, head),
            invariant
                head == head_height(chain@),
                goal == frontier(chain@, self@, overlay@, layer),
            ensures
                goal == frontier_from(chain@, self@, overlay@, layer, head + 1, head),
            decreases head - number + 1,
        {
            match chain.get_block_hash_by_number(number) {
                Some(hash) => {
                    if self.is_stark_compression_source(chain, &hash, overlay)
                        && self.compression_layer_for_source(&hash, overlay) < layer {
                        return number;
                    }
                },
                None => {},
            }
            if number == u64::MAX {
                break ;
            }
            number += 1;
        }
        head.saturating_add(1)
    }

    /// Checks that an amendment comes next, counting on the layers in an overlay.
    ///
    /// Its layer is at least one and its compression is enough; a first-layer amendment covers no
    /// signatures or enough of them. Its sources are the canonical blocks of a range that ends at
    /// its target, each of them still to be covered by its layer and covered by the layer below, and
    /// the range starts at the layer's frontier.
    pub fn validate_stark_amendment_ordering_with_overlay(
        &self,
        chain: &ChainStore,
        amendment: &ProofAmendment,
        overlay: &Table<ShellHash, u32>,
    ) -> (r: Result<(), StarkError>)
        ensures
            match ordering_error(chain@, self@, overlay@, *amendment) {
                Some(e) => r == Err::<(), StarkError>(e),
                None => r is Ok,
            },
    {
        if amendment.layer == 0 {
            return Err(StarkError::LayerZero);
        }
        if !amendment.compression_valid {
            return Err(StarkError::AmendmentCompression);
        }
        if amendment.layer == 1 && amendment.n_sigs != 0 && amendment.n_sigs < MIN_L1_STARK_TXS {
            return Err(StarkError::AmendmentTooFew { n_sigs: amendment.n_sigs });
        }
        let count: usize = amendment.covered.len();
        if count == 0 {
            return Err(StarkError::NoSources);
        }
        if amendment.covered[count - 1] != amendment.block_hash {
            return Err(StarkError::TargetMismatch { target: amendment.block_hash });
        }
        let start: u64 = match amendment.range_start {
            Some(start) => start,
            None => {
                return Err(StarkError::RangeShort { end: amendment.block_number, count });
            },
        };
        let expected_end: u64 = match start.checked_add(count as u64) {
            Some(end_plus_one) => end_plus_one - 1,
            None => {
                return Err(StarkError::RangeOverflow);
            },
        };
        if expected_end != amendment.block_number {
            return Err(
                StarkError::RangeEnd { start, expected_end, end: amendment.block_number },
            );
        }
        let ghost cv = chain@;
        let ghost sv = self@;
        let ghost ov = overlay@;
        let mut i: usize = 0;
        while i < count
            invariant
                i <= count,
                count == amendment.covered@.len(),
                start + count <= u64::MAX,
                amendment.layer > 0,
                cv == chain@,
                sv == self@,
                ov == overlay@,
                start == amendment.range_start->0,
                shape_error(*amendment) is None,
                sources_error(cv, sv, ov, *amendment, start, i as nat) is None,
            decreases count - i,
        {
            let number: u64 = start + i as u64;
            let hash = amendment.covered[i];
            proof {
                let fault = source_error(cv, sv, ov, *amendment, start, i as int);
                assert(sources_error(cv, sv, ov, *amendment, start, (i + 1) as nat) == fault);
                if fault is Some {
                    lemma_first_source_fault(
                        cv,
                        sv,
                        ov,
                        *amendment,
                        start,
                        (i + 1) as nat,
                        count as nat,
                    );
                }
            }
            match chain.get_block_hash_by_number(number) {
                None => {
                    return Err(StarkError::MissingCanonical { number });
                },
                Some(canonical) => {
                    if canonical != hash {
                        return Err(StarkError::NotCanonical { number, canonical, hash });
                    }
                },
            }
            if !self.is_stark_compression_source(chain, &hash, overlay) {
                return Err(StarkError::NotCompressible { number });
            }
            let current_layer: u32 = self.compression_layer_for_source(&hash, overlay);
            if current_layer >= amendment.layer {
                return Err(StarkError::Overlap { number, current_layer });
            }
            if amendment.layer > 1 && current_layer + 1 != amendment.layer {
                return Err(
                    StarkError::LowerLayer { layer: amendment.layer, number, current_layer },
                );
            }
            i += 1;
        }
        let next: u64 = self.first_canonical_block_below_layer(chain, amendment.layer, overlay);
        if start != next {
            return Err(
                StarkError::Frontier { layer: amendment.layer, frontier: next, start },
            );
        }
        Ok(())
    }

    /// Checks that an amendment comes next after those that wait to be settled.
    pub fn validate_stark_amendment_ordering(
        &self,
        chain: &ChainStore,
        amendment: &ProofAmendment,
    ) -> (r: Result<(), StarkError>)
        ensures
            match ordering_error(
                chain@,
                self@,
                overlay_of(self.pending(), self.pending().len()),
                *amendment,
            ) {
                Some(e) => r == Err::<(), StarkError>(e),
                None => r is Ok,
            },
    {
        let mut overlay: Table<ShellHash, u32> = Table::new();
        let mut n: usize = 0;
        while n < self.pending.len()
            invariant
                n <= self.pending@.len(),
                overlay@ == overlay_of(self.pending@, n as nat),
            decreases self.pending.len() - n,
        {
            add_overlay(&mut overlay, &self.pending[n]);
            n += 1;
        }
        self.validate_stark_amendment_ordering_with_overlay(chain, amendment, &overlay)
    }

    /// Checks that each of some amendments comes next once those before it are settled.
    pub fn validate_stark_settlement_sequence(
        &self,
        chain: &ChainStore,
        amendments: &Vec<ProofAmendment>,
    ) -> (r: Result<(), StarkError>)
        ensures
            match sequence_error(chain@, self@, amendments@, amendments@.len()) {
                Some(e) => r == Err::<(), StarkError>(e),
                None => r is Ok,
            },
    {
        let mut overlay: Table<ShellHash, u32> = Table::new();
        let ghost cv = chain@;
        let ghost sv = self@;
        let mut n: usize = 0;
        while n < amendments.len()
            invariant
                n <= amendments@.len(),
                cv == chain@,
                sv == self@,
                overlay@ == overlay_of(amendments@, n as nat),
                sequence_error(cv, sv, amendments@, n as nat) is None,
            decreases amendments.len() - n,
        {
            proof {
                if sequence_error(cv, sv, amendments@, (n + 1) as nat) is Some {
                    lemma_first_sequence_fault(
                        cv,
                        sv,
                        amendments@,
                        (n + 1) as nat,
                        amendments@.len(),
                    );
                }
            }
            match self.validate_stark_amendment_ordering_with_overlay(
                chain,
                &amendments[n],
                &overlay,
            ) {
                Ok(()) => {},
                Err(e) => {
                    return Err(e);
                },
            }
            add_overlay(&mut overlay, &amendments[n]);
            n += 1;
        }
        Ok(())
    }
}

/// The test that an amendment covers no source that is settled at its layer.
pub open spec fn still_pending(settled: Set<LayeredSource>) -> spec_fn(ProofAmendment) -> bool {
    |a: ProofAmendment|
        forall|i: int|
            0 <= i < a.covered@.len() ==> !settled.contains(at_layer(a.layer, #[trigger] a.covered@[i]))
}

proof fn lemma_sources(
    chain: ChainView,
    view: StarkView,
    overlay: Map<ShellHash, u32>,
    amendment: ProofAmendment,
    start: u64,
    n: nat,
)
    requires
        sources_error(chain, view, overlay, amendment, start, n) is None,
    ensures
        forall|i: int|
            #![trigger amendment.covered@[i]]
            0 <= i < n ==> source_error(chain, view, overlay, amendment, start, i) is None,
    decreases n,
{
    if n > 0 {
        lemma_sources(chain, view, overlay, amendment, start, (n - 1) as nat);
    }
}

/// Whether the source at position `i` of an amendment is the canonical block of its height in a
/// range that starts at `start`, and is compressed exactly up to the layer below.
pub open spec fn covers_canonical(
    chain: ChainView,
    view: StarkView,
    overlay: Map<ShellHash, u32>,
    amendment: ProofAmendment,
    start: u64,
    i: int,
) -> bool {
    &&& chain.canonical.contains_key((start + i) as u64)
    &&& chain.canonical[(start + i) as u64] == amendment.covered@[i]
    &&& layer_of(view, overlay, amendment.covered@[i]) == amendment.layer - 1
}

/// An accepted amendment covers the canonical blocks of one unbroken range, from the frontier of its
/// layer to its target, and every one of them is compressed exactly up to the layer below.
pub proof fn law_accepted_range_is_canonical(
    chain: ChainView,
    view: StarkView,
    overlay: Map<ShellHash, u32>,
    amendment: ProofAmendment,
)
    requires
        ordering_error(chain, view, overlay, amendment) is None,
    ensures
        ({
            let start = frontier(chain, view, overlay, amendment.layer);
            &&& amendment.layer >= 1
            &&& amendment.covered@.len() > 0
            &&& start + amendment.covered@.len() == amendment.block_number + 1
            &&& forall|i: int|
                0 <= i < amendment.covered@.len() ==> #[trigger] covers_canonical(
                    chain,
                    view,
                    overlay,
                    amendment,
                    start,
                    i,
                )
        }),
{
    let start = frontier(chain, view, overlay, amendment.layer);
    lemma_sources(chain, view, overlay, amendment, start, amendment.covered@.len());
    assert forall|i: int| 0 <= i < amendment.covered@.len() implies #[trigger] covers_canonical(
        chain,
        view,
        overlay,
        amendment,
        start,
        i,
    ) by {
        let hash = amendment.covered@[i];
        assert(source_error(chain, view, overlay, amendment, start, i) is None);
    }
}

proof fn lemma_overlay_elsewhere(
    overlay: Map<ShellHash, u32>,
    covered: Seq<ShellHash>,
    layer: u32,
    n: nat,
    h: ShellHash,
)
    requires
        n <= covered.len(),
        !covered.contains(h),
    ensures
        overlay_with(overlay, covered, layer, n).contains_key(h) <==> overlay.contains_key(h),
        overlay_with(overlay, covered, layer, n)[h] == overlay[h],
    decreases n,
{
    if n > 0 {
        lemma_overlay_elsewhere(overlay, covered, layer, (n - 1) as nat, h);
        assert(covered.contains(covered[n - 1]));
    }
}

#[verifier::spinoff_prover]
proof fn lemma_overlay_with(
    overlay: Map<ShellHash, u32>,
    covered: Seq<ShellHash>,
    layer: u32,
    n: nat,
)
    requires
        n <= covered.len(),
    ensures
        forall|i: int|
            #![trigger covered[i]]
            0 <= i < n ==> overlay_with(overlay, covered, layer, n).contains_key(covered[i])
                && overlay_with(overlay, covered, layer, n)[covered[i]] == layer,
        forall|h: ShellHash|
            overlay.contains_key(h) ==> #[trigger] overlay_with(
                overlay,
                covered,
                layer,
                n,
            ).contains_key(h),
        forall|h: ShellHash|
            !covered.contains(h) ==> (#[trigger] overlay_with(
                overlay,
                covered,
                layer,
                n,
            ).contains_key(h) <==> overlay.contains_key(h)) && overlay_with(
                overlay,
                covered,
                layer,
                n,
            )[h] == overlay[h],
    decreases n,
{
    let after = overlay_with(overlay, covered, layer, n);
    if n > 0 {
        lemma_overlay_with(overlay, covered, layer, (n - 1) as nat);
        let before = overlay_with(overlay, covered, layer, (n - 1) as nat);
        assert(after == before.insert(covered[n - 1], layer));
        assert forall|i: int| #![trigger covered[i]] 0 <= i < n implies after.contains_key(
            covered[i],
        ) && after[covered[i]] == layer by {
            if i < n - 1 {
                assert(before.contains_key(covered[i]));
            }
        }
    }
    assert forall|h: ShellHash| !covered.contains(h) implies (#[trigger] after.contains_key(h)
        <==> overlay.contains_key(h)) && after[h] == overlay[h] by {
        lemma_overlay_elsewhere(overlay, covered, layer, n, h);
    }
}

/// An amendment is settled once: counted as settled, it does not come next again.
pub proof fn law_no_double_settlement(
    chain: ChainView,
    view: StarkView,
    overlay: Map<ShellHash, u32>,
    amendment: ProofAmendment,
)
    ensures
        ordering_error(chain, view, overlaid(overlay, amendment), amendment) is Some,
{
    let after = overlaid(overlay, amendment);
    let start = amendment.range_start->0;
    let n = amendment.covered@.len();
    if ordering_error(chain, view, after, amendment) is None {
        lemma_sources(chain, view, after, amendment, start, n);
        lemma_overlay_with(overlay, amendment.covered@, amendment.layer, n);
        let first = amendment.covered@[0];
        assert(source_error(chain, view, after, amendment, start, 0) is None);
        assert(layer_of(view, after, first) == amendment.layer);
    }
}

proof fn lemma_frontier_after(
    chain: ChainView,
    view: StarkView,
    overlay: Map<ShellHash, u32>,
    layer: u32,
    from: int,
    end: u64,
    head: u64,
)
    requires
        end < u64::MAX,
        0 <= from,
        end <= head,
        forall|n: u64| from <= n <= end ==> !#[trigger] is_open(chain, view, overlay, layer, n),
    ensures
        frontier_from(chain, view, overlay, layer, from, head) > end,
    decreases head + 1 - from,
{
    if from <= head {
        if from <= end {
            assert(!is_open(chain, view, overlay, layer, from as u64));
            lemma_frontier_after(chain, view, overlay, layer, from + 1, end, head);
        } else if !is_open(chain, view, overlay, layer, from as u64) {
            lemma_frontier_after(chain, view, overlay, layer, from + 1, end, head);
        }
    }
}

proof fn lemma_below_frontier_closed(
    chain: ChainView,
    view: StarkView,
    overlay: Map<ShellHash, u32>,
    layer: u32,
    from: int,
    head: u64,
    number: u64,
)
    requires
        0 <= from <= number <= head,
        number < frontier_from(chain, view, overlay, layer, from, head),
    ensures
        !is_open(chain, view, overlay, layer, number),
    decreases head + 1 - from,
{
    if is_open(chain, view, overlay, layer, from as u64) {
    } else if from < number {
        lemma_below_frontier_closed(chain, view, overlay, layer, from + 1, head, number);
    }
}

/// Settling an accepted amendment takes the frontier of its layer past its target, so the next
/// amendment of the layer starts above it. (A canonical block occurs at one height only.)
pub proof fn law_settlement_advances_frontier(
    chain: ChainView,
    view: StarkView,
    overlay: Map<ShellHash, u32>,
    amendment: ProofAmendment,
)
    requires
        ordering_error(chain, view, overlay, amendment) is None,
        amendment.block_number <= head_height(chain),
        amendment.block_number < u64::MAX,
        forall|a: u64, b: u64|
            #![trigger chain.canonical[a], chain.canonical[b]]
            chain.canonical.contains_key(a) && chain.canonical.contains_key(b) && chain.canonical[a]
                == chain.canonical[b] ==> a == b,
    ensures
        frontier(chain, view, overlaid(overlay, amendment), amendment.layer)
            > amendment.block_number,
{
    let after = overlaid(overlay, amendment);
    let layer = amendment.layer;
    let covered = amendment.covered@;
    let head = head_height(chain);
    let start = frontier(chain, view, overlay, layer);
    let from = if view.frontiers.contains_key(layer) {
        view.frontiers[layer]
    } else {
        0
    };
    law_accepted_range_is_canonical(chain, view, overlay, amendment);
    lemma_overlay_with(overlay, covered, layer, covered.len());
    assert forall|n: u64| from <= n <= amendment.block_number implies !#[trigger] is_open(
        chain,
        view,
        after,
        layer,
        n,
    ) by {
        if n >= start {
            let hash = covered[n - start];
            assert(covers_canonical(chain, view, overlay, amendment, start, n - start));
            assert(after[hash] == layer);
        } else {
            lemma_below_frontier_closed(chain, view, overlay, layer, from as int, head, n);
            if chain.canonical.contains_key(n) {
                let hash = chain.canonical[n];
                if covered.contains(hash) {
                    let i = choose|i: int| 0 <= i < covered.len() && covered[i] == hash;
                    assert(covers_canonical(chain, view, overlay, amendment, start, i));
                    assert(chain.canonical[(start + i) as u64] == hash);
                } else {
                    assert(after.contains_key(hash) <==> overlay.contains_key(hash));
                }
            }
        }
    }
    lemma_frontier_after(chain, view, after, layer, from as int, amendment.block_number, head);
}

/// Every source that one of the first `n` of some amendments covers counts with the layer of the last
/// of them that covers it, and no other source counts.
pub proof fn law_every_waiting_amendment_counts(
    amendments: Seq<ProofAmendment>,
    n: nat,
    source: ShellHash,
)
    requires
        n <= amendments.len(),
    ensures
        overlay_of(amendments, n).contains_key(source) <==> exists|i: int|
            0 <= i < n && (#[trigger] amendments[i]).covered@.contains(source),
        forall|i: int|
            0 <= i < n && (#[trigger] amendments[i]).covered@.contains(source) && (forall|j: int|
                i < j < n ==> !(#[trigger] amendments[j]).covered@.contains(source))
                ==> overlay_of(amendments, n)[source] == amendments[i].layer,
    decreases n,
{
    if n > 0 {
        law_every_waiting_amendment_counts(amendments, (n - 1) as nat, source);
        let last = amendments[n - 1];
        let before = overlay_of(amendments, (n - 1) as nat);
        lemma_overlay_with(before, last.covered@, last.layer, last.covered@.len());
        if last.covered@.contains(source) {
            let k = choose|k: int| 0 <= k < last.covered@.len() && last.covered@[k] == source;
            assert(last.covered@[k] == source);
            assert(amendments[n - 1].covered@.contains(source));
        } else {
            assert(overlay_of(amendments, n).contains_key(source) <==> before.contains_key(source));
            if before.contains_key(source) {
                let i = choose|i: int|
                    0 <= i < n - 1 && (#[trigger] amendments[i]).covered@.contains(source);
                assert(amendments[i].covered@.contains(source));
            }
        }
    }
}

proof fn lemma_frontier_is(
    chain: ChainView,
    view: StarkView,
    overlay: Map<ShellHash, u32>,
    layer: u32,
    from: int,
    head: u64,
    number: u64,
)
    requires
        0 <= from <= number <= head,
        is_open(chain, view, overlay, layer, number),
        forall|n: u64| from <= n < number ==> !#[trigger] is_open(chain, view, overlay, layer, n),
    ensures
        frontier_from(chain, view, overlay, layer, from, head) == number,
    decreases number - from,
{
    if from < number {
        assert(!is_open(chain, view, overlay, layer, from as u64));
        lemma_frontier_is(chain, view, overlay, layer, from + 1, head, number);
    }
}

proof fn lemma_frontier_from(
    chain: ChainView,
    view: StarkView,
    overlay: Map<ShellHash, u32>,
    layer: u32,
    from: int,
    head: u64,
)
    requires
        0 <= from,
    ensures
        ({
            let r = frontier_from(chain, view, overlay, layer, from, head);
            &&& from <= head ==> from <= r
            &&& r <= head < u64::MAX ==> from <= r && is_open(chain, view, overlay, layer, r)
            &&& r > head ==> r == head + 1
            &&& forall|n: u64|
                from <= n < r && n <= head ==> !#[trigger] is_open(chain, view, overlay, layer, n)
        }),
    decreases head + 1 - from,
{
    if from <= head && !is_open(chain, view, overlay, layer, from as u64) {
        lemma_frontier_from(chain, view, overlay, layer, from + 1, head);
    }
}

/// The next amendment of a layer starts at the first height, from the recorded one on, whose
/// canonical block can be compressed and is not compressed up to that layer yet; or after the head
/// where there is no such height.
pub proof fn law_frontier_is_the_first_open_height(
    chain: ChainView,
    view: StarkView,
    overlay: Map<ShellHash, u32>,
    layer: u32,
    number: u64,
)
    requires
        head_height(chain) < u64::MAX,
        number <= head_height(chain),
        view.frontiers.contains_key(layer) ==> view.frontiers[layer] <= number,
    ensures
        ({
            let next = frontier(chain, view, overlay, layer);
            let hash = chain.canonical[number];
            let open = chain.canonical.contains_key(number) && (overlay.contains_key(hash)
                || view.proofs.contains_key(hash) || view.witnesses.contains_key(hash)
                || chain.headers.contains_key(hash)) && layer_of(view, overlay, hash) < layer;
            &&& next <= head_height(chain) + 1
            &&& number < next ==> !open
            &&& number == next ==> open
        }),
{
    let from = if view.frontiers.contains_key(layer) {
        view.frontiers[layer]
    } else {
        0
    };
    lemma_frontier_from(chain, view, overlay, layer, from as int, head_height(chain));
    let next = frontier(chain, view, overlay, layer);
    assert(number < next ==> !is_open(chain, view, overlay, layer, number));
    assert(number == next ==> is_open(chain, view, overlay, layer, number));
}

/// A source is compressed up to the layer that a waiting amendment gives it, or else up to the
/// highest of the three layers at which it is settled, or not at all.
pub proof fn law_highest_layer_counts(
    view: StarkView,
    overlay: Map<ShellHash, u32>,
    hash: ShellHash,
    layer: u32,
)
    requires
        1 <= layer <= 3,
    ensures
        overlay.contains_key(hash) ==> layer_of(view, overlay, hash) == overlay[hash],
        !overlay.contains_key(hash) ==> {
            let reached = layer_of(view, overlay, hash);
            &&& reached <= 3
            &&& reached > 0 ==> view.settled.contains(LayeredSource { layer: reached, hash })
            &&& view.settled.contains(LayeredSource { layer, hash }) ==> layer <= reached
        },
{
}

/// Whether some amendments of one layer cover consecutive runs of canonical blocks, the first of
/// which starts at `start`: each is in order in itself, and each of its sources is the canonical
/// block of its height, can be compressed, and is compressed exactly up to the layer below.
pub open spec fn consecutive_runs(
    chain: ChainView,
    view: StarkView,
    amendments: Seq<ProofAmendment>,
    layer: u32,
    start: u64,
) -> bool {
    &&& forall|k: int|
        0 <= k < amendments.len() ==> {
            let a = #[trigger] amendments[k];
            &&& a.layer == layer
            &&& a.compression_valid
            &&& layer == 1 ==> a.n_sigs == 0 || a.n_sigs >= 512
            &&& a.covered@.len() > 0
            &&& a.covered@.last() == a.block_hash
            &&& a.range_start is Some
            &&& a.range_start->0 + a.covered@.len() == a.block_number + 1
            &&& a.block_number < u64::MAX
            &&& a.block_number <= head_height(chain)
        }
    &&& amendments.len() > 0 ==> amendments[0].range_start == Some(start)
    &&& forall|k: int|
        0 < k < amendments.len() ==> (#[trigger] amendments[k]).range_start->0 == amendments[k
            - 1].block_number + 1
    &&& forall|k: int, i: int|
        0 <= k < amendments.len() && 0 <= i < amendments[k].covered@.len() ==> {
            let hash = #[trigger] amendments[k].covered@[i];
            let number = (amendments[k].range_start->0 + i) as u64;
            &&& chain.canonical.contains_key(number)
            &&& chain.canonical[number] == hash
            &&& chain.headers.contains_key(hash) || view.proofs.contains_key(hash)
                || view.witnesses.contains_key(hash)
            &&& layer_of(view, Map::empty(), hash) + 1 == layer
        }
}

proof fn lemma_runs_in_order(amendments: Seq<ProofAmendment>, a: int, b: int)
    requires
        0 <= a < b < amendments.len(),
        forall|k: int|
            0 <= k < amendments.len() ==> (#[trigger] amendments[k]).covered@.len() > 0
                && amendments[k].range_start->0 + amendments[k].covered@.len()
                == amendments[k].block_number + 1,
        forall|k: int|
            0 < k < amendments.len() ==> (#[trigger] amendments[k]).range_start->0 == amendments[k
                - 1].block_number + 1,
    ensures
        amendments[a].block_number < amendments[b].range_start->0,
    decreases b - a,
{
    assert(amendments[b].range_start->0 == amendments[b - 1].block_number + 1);
    if a < b - 1 {
        lemma_runs_in_order(amendments, a, b - 1);
        assert(amendments[b - 1].covered@.len() > 0);
    }
}

/// The height that is covered at a place of consecutive runs.
proof fn lemma_run_of_height(
    amendments: Seq<ProofAmendment>,
    n: int,
    start: u64,
    number: u64,
) -> (r: (int, int))
    requires
        0 < n <= amendments.len(),
        amendments[0].range_start == Some(start),
        forall|k: int|
            0 <= k < amendments.len() ==> (#[trigger] amendments[k]).covered@.len() > 0
                && amendments[k].range_start->0 + amendments[k].covered@.len()
                == amendments[k].block_number + 1,
        forall|k: int|
            0 < k < amendments.len() ==> (#[trigger] amendments[k]).range_start->0 == amendments[k
                - 1].block_number + 1,
        start <= number <= amendments[n - 1].block_number,
    ensures
        0 <= r.0 < n,
        0 <= r.1 < amendments[r.0].covered@.len(),
        amendments[r.0].range_start->0 + r.1 == number,
    decreases n,
{
    let last = amendments[n - 1];
    if number >= last.range_start->0 {
        (n - 1, number - last.range_start->0)
    } else {
        assert(n - 1 > 0);
        assert(amendments[n - 1].range_start->0 == amendments[n - 2].block_number + 1);
        lemma_run_of_height(amendments, n - 1, start, number)
    }
}

proof fn lemma_sources_fine(
    chain: ChainView,
    view: StarkView,
    overlay: Map<ShellHash, u32>,
    amendment: ProofAmendment,
    start: u64,
    n: nat,
)
    requires
        forall|i: int|
            #![trigger amendment.covered@[i]]
            0 <= i < n ==> source_error(chain, view, overlay, amendment, start, i) is None,
    ensures
        sources_error(chain, view, overlay, amendment, start, n) is None,
    decreases n,
{
    if n > 0 {
        lemma_sources_fine(chain, view, overlay, amendment, start, (n - 1) as nat);
        let last = amendment.covered@[n - 1];
        assert(source_error(chain, view, overlay, amendment, start, n - 1) is None);
    }
}

/// Amendments of one layer over consecutive runs of blocks that start at the frontier are all
/// accepted, one after the other, however many they are: each counts on all those before it. (A
/// canonical block occurs at one height only.)
pub proof fn law_consecutive_amendments_are_accepted(
    chain: ChainView,
    view: StarkView,
    amendments: Seq<ProofAmendment>,
    layer: u32,
    n: nat,
)
    requires
        n <= amendments.len(),
        layer >= 1,
        consecutive_runs(
            chain,
            view,
            amendments,
            layer,
            frontier(chain, view, Map::empty(), layer),
        ),
        forall|a: u64, b: u64|
            #![trigger chain.canonical[a], chain.canonical[b]]
            chain.canonical.contains_key(a) && chain.canonical.contains_key(b) && chain.canonical[a]
                == chain.canonical[b] ==> a == b,
    ensures
        sequence_error(chain, view, amendments, n) is None,
        n > 0 ==> ordering_error(
            chain,
            view,
            overlay_of(amendments, (n - 1) as nat),
            amendments[n - 1],
        ) is None,
    decreases n,
{
    if n > 0 {
        law_consecutive_amendments_are_accepted(chain, view, amendments, layer, (n - 1) as nat);
        let overlay = overlay_of(amendments, (n - 1) as nat);
        let next = amendments[n - 1];
        let first = next.range_start->0;
        let start = frontier(chain, view, Map::empty(), layer);
        let head = head_height(chain);
        let from = if view.frontiers.contains_key(layer) {
            view.frontiers[layer]
        } else {
            0
        };
        lemma_frontier_from(chain, view, Map::empty(), layer, from as int, head);
        assert(amendments[0].range_start == Some(start));
        assert(amendments[0].covered@.len() > 0 && amendments[0].block_number <= head);
        assert(start <= head);
        // A source of this amendment is covered by none before it.
        assert forall|i: int| 0 <= i < next.covered@.len() implies !overlay.contains_key(
            #[trigger] next.covered@[i],
        ) by {
            let hash = next.covered@[i];
            law_every_waiting_amendment_counts(amendments, (n - 1) as nat, hash);
            if overlay.contains_key(hash) {
                let k = choose|k: int|
                    0 <= k < n - 1 && (#[trigger] amendments[k]).covered@.contains(hash);
                let j = choose|j: int|
                    0 <= j < amendments[k].covered@.len() && amendments[k].covered@[j] == hash;
                lemma_runs_in_order(amendments, k, n - 1);
                let low = (amendments[k].range_start->0 + j) as u64;
                let high = (amendments[n - 1].range_start->0 + i) as u64;
                assert(amendments[k].covered@[j] == hash);
                assert(amendments[n - 1].covered@[i] == hash);
                assert(chain.canonical[low] == chain.canonical[high]);
                assert(low < high);
            }
        }
        assert forall|i: int|
            #![trigger next.covered@[i]]
            0 <= i < next.covered@.len() implies source_error(
            chain,
            view,
            overlay,
            next,
            first,
            i,
        ) is None by {
            let hash = next.covered@[i];
            assert(amendments[n - 1].covered@[i] == hash);
            assert(!overlay.contains_key(hash));
            assert(layer_of(view, overlay, hash) == layer_of(view, Map::empty(), hash));
        }
        lemma_sources_fine(chain, view, overlay, next, first, next.covered@.len());
        // Everything below this amendment is closed.
        assert forall|m: u64| from <= m < first implies !#[trigger] is_open(
            chain,
            view,
            overlay,
            layer,
            m,
        ) by {
            if n - 1 > 0 {
                assert(amendments[n - 1].range_start->0 == amendments[n - 2].block_number + 1);
            }
            if m >= start {
                let r = lemma_run_of_height(amendments, n - 1, start, m);
                let hash = amendments[r.0].covered@[r.1];
                law_every_waiting_amendment_counts(amendments, (n - 1) as nat, hash);
                assert(amendments[r.0].covered@.contains(hash));
                lemma_layers_alike(amendments, (n - 1) as nat, layer, hash);
                assert(chain.canonical[m] == hash);
            } else {
                assert(!is_open(chain, view, Map::empty(), layer, m));
                if chain.canonical.contains_key(m) {
                    let hash = chain.canonical[m];
                    law_every_waiting_amendment_counts(amendments, (n - 1) as nat, hash);
                    if overlay.contains_key(hash) {
                        lemma_layers_alike(amendments, (n - 1) as nat, layer, hash);
                    }
                }
            }
        }
        let hash = next.covered@[0];
        assert(amendments[n - 1].covered@[0] == hash);
        assert(!overlay.contains_key(hash));
        assert(layer_of(view, overlay, hash) == layer_of(view, Map::empty(), hash));
        assert(is_open(chain, view, overlay, layer, first));
        if n - 1 > 0 {
            lemma_runs_in_order(amendments, 0, n - 1);
        }
        lemma_frontier_is(chain, view, overlay, layer, from as int, head, first);
        assert(shape_error(next) is None);
    }
}

proof fn lemma_layers_alike(amendments: Seq<ProofAmendment>, n: nat, layer: u32, source: ShellHash)
    requires
        n <= amendments.len(),
        forall|k: int| 0 <= k < amendments.len() ==> (#[trigger] amendments[k]).layer == layer,
        overlay_of(amendments, n).contains_key(source),
    ensures
        overlay_of(amendments, n)[source] == layer,
    decreases n,
{
    if n > 0 {
        let last = amendments[n - 1];
        let before = overlay_of(amendments, (n - 1) as nat);
        lemma_overlay_with(before, last.covered@, last.layer, last.covered@.len());
        if last.covered@.contains(source) {
            let k = choose|k: int| 0 <= k < last.covered@.len() && last.covered@[k] == source;
            assert(last.covered@[k] == source);
        } else {
            assert(overlay_of(amendments, n).contains_key(source) <==> before.contains_key(source));
            lemma_layers_alike(amendments, (n - 1) as nat, layer, source);
        }
    }
}

proof fn lemma_settled_with(
    settled: Set<LayeredSource>,
    covered: Seq<ShellHash>,
    layer: u32,
    n: nat,
    source: LayeredSource,
)
    requires
        n <= covered.len(),
    ensures
        settled_with(settled, covered, layer, n).contains(source) <==> settled.contains(source) || (
        source.layer == layer && exists|i: int| 0 <= i < n && #[trigger] covered[i] == source.hash),
    decreases n,
{
    if n > 0 {
        lemma_settled_with(settled, covered, layer, (n - 1) as nat, source);
        assert(covered[n - 1] == covered[n - 1]);
    }
}

/// A source is settled at a layer exactly if it was before, or if one of the amendments of that layer
/// covers it.
pub proof fn law_what_is_settled(
    settled: Set<LayeredSource>,
    amendments: Seq<ProofAmendment>,
    n: nat,
    source: LayeredSource,
)
    requires
        n <= amendments.len(),
    ensures
        settled_by(settled, amendments, n).contains(source) <==> settled.contains(source)
            || exists|k: int, i: int|
            0 <= k < n && 0 <= i < amendments[k].covered@.len() && amendments[k].layer
                == source.layer && #[trigger] amendments[k].covered@[i] == source.hash,
    decreases n,
{
    if n > 0 {
        law_what_is_settled(settled, amendments, (n - 1) as nat, source);
        let last = amendments[n - 1];
        let before = settled_by(settled, amendments, (n - 1) as nat);
        lemma_settled_with(before, last.covered@, last.layer, last.covered@.len(), source);
        if source.layer == last.layer && (exists|i: int|
            0 <= i < last.covered@.len() && #[trigger] last.covered@[i] == source.hash) {
            let i = choose|i: int|
                0 <= i < last.covered@.len() && #[trigger] last.covered@[i] == source.hash;
            assert(amendments[n - 1].covered@[i] == source.hash);
        }
    }
}

/// A block is an input of the second layer exactly if it was before, or if it is the target of one of
/// the first-layer amendments.
pub proof fn law_what_the_second_layer_takes(
    inputs: Set<ShellHash>,
    amendments: Seq<ProofAmendment>,
    n: nat,
    hash: ShellHash,
)
    requires
        n <= amendments.len(),
    ensures
        l2_inputs_by(inputs, amendments, n).contains(hash) <==> inputs.contains(hash) || exists|k: int|
            0 <= k < n && (#[trigger] amendments[k]).layer == 1 && amendments[k].block_hash == hash,
    decreases n,
{
    if n > 0 {
        law_what_the_second_layer_takes(inputs, amendments, (n - 1) as nat, hash);
        assert(amendments[n - 1].layer == amendments[n - 1].layer);
    }
}

/// An amendment stays in the queue exactly if none of the settled amendments of its layer covers one
/// of its sources.
pub proof fn law_what_stays_in_the_queue(settled: Seq<ProofAmendment>, waiting: ProofAmendment)
    ensures
        still_pending(settled_by(Set::empty(), settled, settled.len()))(waiting) <==> !(exists|
            k: int,
            i: int,
            j: int,
        |
            0 <= k < settled.len() && 0 <= i < settled[k].covered@.len() && 0 <= j
                < waiting.covered@.len() && settled[k].layer == waiting.layer
                && #[trigger] settled[k].covered@[i] == #[trigger] waiting.covered@[j]),
{
    let done = settled_by(Set::empty(), settled, settled.len());
    if !still_pending(done)(waiting) {
        let j = choose|j: int|
            0 <= j < waiting.covered@.len() && done.contains(
                at_layer(waiting.layer, #[trigger] waiting.covered@[j]),
            );
        let source = at_layer(waiting.layer, waiting.covered@[j]);
        law_what_is_settled(Set::empty(), settled, settled.len(), source);
        let (k, i) = choose|k: int, i: int|
            0 <= k < settled.len() && 0 <= i < settled[k].covered@.len() && settled[k].layer
                == source.layer && #[trigger] settled[k].covered@[i] == source.hash;
        assert(settled[k].covered@[i] == waiting.covered@[j]);
    }
    if exists|k: int, i: int, j: int|
        0 <= k < settled.len() && 0 <= i < settled[k].covered@.len() && 0 <= j
            < waiting.covered@.len() && settled[k].layer == waiting.layer
            && #[trigger] settled[k].covered@[i] == #[trigger] waiting.covered@[j] {
        let (k, i, j) = choose|k: int, i: int, j: int|
            0 <= k < settled.len() && 0 <= i < settled[k].covered@.len() && 0 <= j
                < waiting.covered@.len() && settled[k].layer == waiting.layer
                && #[trigger] settled[k].covered@[i] == #[trigger] waiting.covered@[j];
        let source = at_layer(waiting.layer, waiting.covered@[j]);
        law_what_is_settled(Set::empty(), settled, settled.len(), source);
        assert(settled[k].covered@[i] == source.hash);
        assert(done.contains(at_layer(waiting.layer, waiting.covered@[j])));
    }
}

/// Whether the source at position `i` of an amendment is the canonical block of its height in a range
/// that starts at `start`, can be compressed, and is compressed exactly up to the layer below.
pub open spec fn is_source_in_order(
    chain: ChainView,
    view: StarkView,
    overlay: Map<ShellHash, u32>,
    amendment: ProofAmendment,
    start: u64,
    i: int,
) -> bool {
    let hash = amendment.covered@[i];
    let number = (start + i) as u64;
    &&& chain.canonical.contains_key(number)
    &&& chain.canonical[number] == hash
    &&& overlay.contains_key(hash) || view.proofs.contains_key(hash)
        || view.witnesses.contains_key(hash) || chain.headers.contains_key(hash)
    &&& layer_of(view, overlay, hash) + 1 == amendment.layer
}

/// Whether an amendment comes next in every respect: it is of a layer, its compression is enough, a
/// first-layer one is over no signatures or over enough of them, it has sources and ends with its
/// target, its range is as long as its sources are many, each source is in order, and the range starts
/// where the layer has got to.
pub open spec fn comes_next(
    chain: ChainView,
    view: StarkView,
    overlay: Map<ShellHash, u32>,
    amendment: ProofAmendment,
) -> bool {
    let covered = amendment.covered@;
    let start = amendment.range_start->0;
    &&& amendment.layer >= 1
    &&& amendment.compression_valid
    &&& amendment.layer == 1 ==> amendment.n_sigs == 0 || amendment.n_sigs >= 512
    &&& covered.len() > 0
    &&& covered[covered.len() - 1] == amendment.block_hash
    &&& amendment.range_start is Some
    &&& start + covered.len() <= u64::MAX
    &&& start + covered.len() == amendment.block_number + 1
    &&& forall|i: int|
        0 <= i < covered.len() ==> #[trigger] is_source_in_order(
            chain,
            view,
            overlay,
            amendment,
            start,
            i,
        )
    &&& start == frontier(chain, view, overlay, amendment.layer)
}

/// An amendment is accepted exactly if it comes next in every respect.
pub proof fn law_amendments_that_are_accepted(
    chain: ChainView,
    view: StarkView,
    overlay: Map<ShellHash, u32>,
    amendment: ProofAmendment,
)
    ensures
        ordering_error(chain, view, overlay, amendment) is None <==> comes_next(
            chain,
            view,
            overlay,
            amendment,
        ),
{
    let covered = amendment.covered@;
    let start = amendment.range_start->0;
    if ordering_error(chain, view, overlay, amendment) is None {
        lemma_sources(chain, view, overlay, amendment, start, covered.len());
        assert forall|i: int| 0 <= i < covered.len() implies #[trigger] is_source_in_order(
            chain,
            view,
            overlay,
            amendment,
            start,
            i,
        ) by {
            let hash = amendment.covered@[i];
            assert(source_error(chain, view, overlay, amendment, start, i) is None);
        }
    }
    if comes_next(chain, view, overlay, amendment) {
        assert forall|i: int|
            #![trigger amendment.covered@[i]]
            0 <= i < covered.len() implies source_error(
            chain,
            view,
            overlay,
            amendment,
            start,
            i,
        ) is None by {
            assert(is_source_in_order(chain, view, overlay, amendment, start, i));
        }
        lemma_sources_fine(chain, view, overlay, amendment, start, covered.len());
    }
}

/// A sequence of amendments is accepted exactly if each of them comes next once those before it are
/// counted.
pub proof fn law_sequences_that_are_accepted(
    chain: ChainView,
    view: StarkView,
    amendments: Seq<ProofAmendment>,
    n: nat,
)
    requires
        n <= amendments.len(),
    ensures
        sequence_error(chain, view, amendments, n) is None <==> forall|k: int|
            0 <= k < n ==> comes_next(
                chain,
                view,
                overlay_of(amendments, k as nat),
                #[trigger] amendments[k],
            ),
    decreases n,
{
    if n > 0 {
        law_sequences_that_are_accepted(chain, view, amendments, (n - 1) as nat);
        law_amendments_that_are_accepted(
            chain,
            view,
            overlay_of(amendments, (n - 1) as nat),
            amendments[n - 1],
        );
    }
}

/// The first source of an amendment that is not in order is the one that is reported, by its height
/// and with what is wrong with it.
pub proof fn law_first_faulty_source_is_named(
    chain: ChainView,
    view: StarkView,
    overlay: Map<ShellHash, u32>,
    amendment: ProofAmendment,
    start: u64,
    i: int,
)
    requires
        0 <= i < amendment.covered@.len(),
        start + amendment.covered@.len() <= u64::MAX,
        forall|j: int|
            #![trigger amendment.covered@[j]]
            0 <= j < i ==> source_error(chain, view, overlay, amendment, start, j) is None,
    ensures
        ({
            let error = sources_error(
                chain,
                view,
                overlay,
                amendment,
                start,
                amendment.covered@.len(),
            );
            let number = (start + i) as u64;
            let hash = amendment.covered@[i];
            let reached = layer_of(view, overlay, hash);
            let known = overlay.contains_key(hash) || view.proofs.contains_key(hash)
                || view.witnesses.contains_key(hash) || chain.headers.contains_key(hash);
            let canonical = chain.canonical.contains_key(number) && chain.canonical[number] == hash;
            &&& !chain.canonical.contains_key(number) ==> error == Some(
                StarkError::MissingCanonical { number },
            )
            &&& chain.canonical.contains_key(number) && chain.canonical[number] != hash ==> error
                == Some(
                StarkError::NotCanonical { number, canonical: chain.canonical[number], hash },
            )
            &&& canonical && !known ==> error == Some(StarkError::NotCompressible { number })
            &&& canonical && known && reached >= amendment.layer ==> error == Some(
                StarkError::Overlap { number, current_layer: reached },
            )
            &&& canonical && known && amendment.layer > 1 && reached + 1 < amendment.layer ==> error
                == Some(
                StarkError::LowerLayer {
                    layer: amendment.layer,
                    number,
                    current_layer: reached,
                },
            )
        }),
{
    lemma_sources_fine(chain, view, overlay, amendment, start, i as nat);
    let fault = source_error(chain, view, overlay, amendment, start, i);
    assert(sources_error(chain, view, overlay, amendment, start, (i + 1) as nat) == fault);
    if fault is Some {
        lemma_first_source_fault(
            chain,
            view,
            overlay,
            amendment,
            start,
            (i + 1) as nat,
            amendment.covered@.len(),
        );
    }
}

/// Amendments that were taken from the queue and put back stand in front of those that came since, and
/// nothing else changes.
pub proof fn law_taken_amendments_come_back_first(
    state: &mut StarkState,
    later: &mut StarkState,
    taken: Vec<ProofAmendment>,
    i: int,
)
    requires
        call_ensures(StarkState::take_pending_stark_settlements, (state,), taken),
        call_ensures(StarkState::restore_pending_stark_settlements, (later, taken), ()),
    ensures
        final(state).pending().len() == 0,
        taken@ == old(state).pending(),
        final(later).pending().len() == taken@.len() + old(later).pending().len(),
        0 <= i < taken@.len() ==> final(later).pending()[i] == old(state).pending()[i],
        0 <= i < old(later).pending().len() ==> final(later).pending()[taken@.len() + i] == old(
            later,
        ).pending()[i],
        final(state)@ == old(state)@,
        final(later)@ == old(later)@,
{
}

/// A recorded amendment settles each of its sources at its layer and nothing else, and a first-layer
/// one gives its target to the second layer; the queue stays.
pub proof fn law_recording_settles_the_sources(
    state: &mut StarkState,
    amendments: Vec<ProofAmendment>,
    source: LayeredSource,
    hash: ShellHash,
)
    requires
        call_ensures(StarkState::record_settled_sources, (state, &amendments), ()),
    ensures
        final(state)@.settled.contains(source) <==> old(state)@.settled.contains(source)
            || exists|k: int, i: int|
            0 <= k < amendments@.len() && 0 <= i < amendments@[k].covered@.len()
                && amendments@[k].layer == source.layer && #[trigger] amendments@[k].covered@[i]
                == source.hash,
        final(state)@.l2_inputs.contains(hash) <==> old(state)@.l2_inputs.contains(hash)
            || exists|k: int|
            0 <= k < amendments@.len() && (#[trigger] amendments@[k]).layer == 1
                && amendments@[k].block_hash == hash,
        final(state)@.proofs == old(state)@.proofs,
        final(state)@.witnesses == old(state)@.witnesses,
        final(state)@.frontiers == old(state)@.frontiers,
        final(state).pending() == old(state).pending(),
{
    law_what_is_settled(old(state)@.settled, amendments@, amendments@.len(), source);
    law_what_the_second_layer_takes(old(state)@.l2_inputs, amendments@, amendments@.len(), hash);
}

/// An amendment comes next exactly if it does after all those that wait in the queue.
pub proof fn law_the_next_amendment(
    state: StarkState,
    chain: ChainStore,
    amendment: ProofAmendment,
    checked: Result<(), StarkError>,
)
    requires
        call_ensures(
            StarkState::validate_stark_amendment_ordering,
            (&state, &chain, &amendment),
            checked,
        ),
    ensures
        checked is Ok <==> comes_next(
            chain@,
            state@,
            overlay_of(state.pending(), state.pending().len()),
            amendment,
        ),
{
    law_amendments_that_are_accepted(
        chain@,
        state@,
        overlay_of(state.pending(), state.pending().len()),
        amendment,
    );
}

/// Once some amendments are settled, exactly those stay in the queue that share no source with a
/// settled one of their layer.
pub proof fn law_who_stays_in_the_queue(
    state: &mut StarkState,
    settled: Vec<ProofAmendment>,
    waiting: ProofAmendment,
)
    requires
        call_ensures(StarkState::remove_settled_pending, (state, &settled), ()),
    ensures
        final(state).pending().contains(waiting) <==> old(state).pending().contains(waiting) && !(
        exists|k: int, i: int, j: int|
            0 <= k < settled@.len() && 0 <= i < settled@[k].covered@.len() && 0 <= j
                < waiting.covered@.len() && settled@[k].layer == waiting.layer
                && #[trigger] settled@[k].covered@[i] == #[trigger] waiting.covered@[j]),
        final(state)@ == old(state)@,
{
    law_what_stays_in_the_queue(settled@, waiting);
    lemma_filtered(
        old(state).pending(),
        still_pending(settled_by(Set::empty(), settled@, settled@.len())),
        waiting,
    );
}

proof fn lemma_filtered(queue: Seq<ProofAmendment>, keep: spec_fn(ProofAmendment) -> bool, one: ProofAmendment)
    ensures
        queue.filter(keep).contains(one) <==> queue.contains(one) && keep(one),
    decreases queue.len(),
{
    reveal(Seq::filter);
    if queue.len() > 0 {
        let init = queue.drop_last();
        let last = queue.last();
        lemma_filtered(init, keep, one);
        let before = init.filter(keep);
        let all = queue.filter(keep);
        if queue.contains(one) && one != last {
            let i = choose|i: int| 0 <= i < queue.len() && queue[i] == one;
            assert(init[i] == one);
        }
        if init.contains(one) {
            let i = choose|i: int| 0 <= i < init.len() && init[i] == one;
            assert(queue[i] == one);
        }
        assert(queue[queue.len() - 1] == last);
        if before.contains(one) {
            let i = choose|i: int| 0 <= i < before.len() && before[i] == one;
            assert(all[i] == one);
        }
        if keep(last) {
            assert(all[all.len() - 1] == last);
        }
        if all.contains(one) {
            let i = choose|i: int| 0 <= i < all.len() && all[i] == one;
            if i < before.len() {
                assert(before[i] == one);
            }
        }
    }
}

/// Sources that a store has recorded as settled are settled after a restart, at their layers and in
/// addition to those that are known; nothing else changes.
pub proof fn law_restored_sources_are_settled(
    state: &mut StarkState,
    sources: Vec<LayeredSource>,
    source: LayeredSource,
)
    requires
        call_ensures(StarkState::restore_settled, (state, &sources), ()),
    ensures
        final(state)@.settled.contains(source) <==> old(state)@.settled.contains(source)
            || exists|i: int| 0 <= i < sources@.len() && #[trigger] sources@[i] == source,
        final(state)@.proofs == old(state)@.proofs,
        final(state)@.witnesses == old(state)@.witnesses,
        final(state)@.l2_inputs == old(state)@.l2_inputs,
        final(state).pending() == old(state).pending(),
{
    assert(sources@.to_set().contains(source) <==> sources@.contains(source));
}

/// An amendment that is queued waits behind all others.
pub proof fn law_queued_amendments_wait_in_order(
    state: &mut StarkState,
    amendment: ProofAmendment,
    i: int,
)
    requires
        call_ensures(StarkState::push_pending, (state, amendment), ()),
    ensures
        ({
            let before = old(state).pending();
            let after = final(state).pending();
            &&& after.len() == before.len() + 1
            &&& after[before.len() as int] == amendment
            &&& 0 <= i < before.len() ==> after[i] == before[i]
            &&& final(state)@ == old(state)@
        }),
{
}

} // verus!
