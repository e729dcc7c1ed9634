//! The background prover: when it works, what a finished proof turns into, and what becomes of the
//! task.
//!
//! The loop and the work on one task are state machines. The caller performs the action that a step
//! asks for, and reports what came of it with the next step.

use vstd::prelude::*;

use crate::primitives::{Address, ShellHash};
use crate::stark::ProofAmendment;

verus! {

/// Seconds between two reports of a stalled backlog.
pub const STALL_REPORT_SECS: u64 = 60;

/// Configuration for the background prover.
#[derive(Debug, Clone, Copy, PartialEq, Eq, Structural)]
pub struct ProverConfig {
    /// Maximum number of proof tasks to process concurrently. One is the safest, and takes the
    /// least memory.
    pub max_concurrent_proofs: usize,
    /// In which order proofs are made.
    pub proving_priority: ProvingPriority,
    /// Milliseconds to sleep between polls of an empty backlog.
    pub idle_poll_ms: u64,
}

impl Default for ProverConfig {
    fn default() -> (r: Self)
        ensures
            r == (ProverConfig {
                max_concurrent_proofs: 1,
                proving_priority: ProvingPriority::Sequential,
                idle_poll_ms: 200,
            }),
    {
        ProverConfig {
            max_concurrent_proofs: 1,
            proving_priority: ProvingPriority::Sequential,
            idle_poll_ms: 200,
        }
    }
}

/// In which order proofs are made.
#[derive(Debug, Clone, Copy, PartialEq, Eq, Structural)]
pub enum ProvingPriority {
    /// Strictly in block-number order, the safest for chain consistency.
    Sequential,
    /// The most recently arrived block first.
    LatestFirst,
}

/// Whether a place of the backlog is the one to prove next, where `heights` are those of the queued
/// blocks in the order in which they arrived. Of several blocks of the lowest height the first to
/// arrive is taken.
pub open spec fn is_next_task(priority: ProvingPriority, heights: Seq<u64>, place: int) -> bool {
    &&& 0 <= place < heights.len()
    &&& match priority {
        ProvingPriority::Sequential => {
            &&& forall|j: int| 0 <= j < heights.len() ==> heights[place] <= #[trigger] heights[j]
            &&& forall|j: int| 0 <= j < place ==> heights[place] < #[trigger] heights[j]
        },
        ProvingPriority::LatestFirst => place == heights.len() - 1,
    }
}

/// The place of the block to prove next among the queued ones, whose heights come in the order in
/// which they arrived: the lowest, or the one that arrived last.
pub fn next_task_position(priority: ProvingPriority, heights: &Vec<u64>) -> (r: Option<usize>)
    ensures
        match r {
            Some(place) => is_next_task(priority, heights@, place as int),
            None => heights@.len() == 0,
        },
{
    if heights.len() == 0 {
        return None;
    }
    match priority {
        ProvingPriority::LatestFirst => Some(heights.len() - 1),
        ProvingPriority::Sequential => {
            let mut lowest: usize = 0;
            let mut i: usize = 1;
            while i < heights.len()
                invariant
                    lowest < i <= heights@.len(),
                    forall|j: int|
                        0 <= j < i ==> heights@[lowest as int] <= #[trigger] heights@[j],
                    forall|j: int|
                        0 <= j < lowest ==> heights@[lowest as int] < #[trigger] heights@[j],
                decreases heights.len() - i,
            {
                if heights[i] < heights[lowest] {
                    lowest = i;
                }
                i += 1;
            }
            Some(lowest)
        },
    }
}

/// How far second-layer proving is switched on.
#[derive(Debug, Clone, Copy, PartialEq, Eq, Structural)]
pub enum L2StarkMode {
    /// Not at all.
    Disabled,
    /// Jobs are made and can be observed, and are not worked on.
    Scaffold,
    /// Jobs are to be worked on.
    Active,
}

impl L2StarkMode {
    /// Whether jobs are made.
    pub fn is_enabled(self) -> (r: bool)
        ensures
            r == (self != L2StarkMode::Disabled),
    {
        self != L2StarkMode::Disabled
    }

    /// Whether jobs are to be worked on.
    pub fn is_active(self) -> (r: bool)
        ensures
            r == (self == L2StarkMode::Active),
    {
        self == L2StarkMode::Active
    }
}

/// A run of blocks to prove.
#[derive(Debug)]
pub struct ProofTask {
    /// The last block of the run.
    pub block_hash: ShellHash,
    /// Height of that block.
    pub block_number: u64,
    /// The number of entries to prove.
    pub entries: usize,
    /// The blocks of the run, lowest first; none stands for the last block alone.
    pub source_hashes: Vec<ShellHash>,
    /// The layer of compression.
    pub layer: u32,
    /// Size of what the proof replaces, in bytes.
    pub original_size: Option<u64>,
}

/// The blocks of a task's run: those that it names, or its last block.
pub open spec fn task_sources(task: ProofTask) -> Seq<ShellHash> {
    if task.source_hashes@.len() == 0 {
        seq![task.block_hash]
    } else {
        task.source_hashes@
    }
}

fn sources_of(task: &ProofTask) -> (r: Vec<ShellHash>)
    ensures
        r@ == task_sources(*task),
{
    let mut sources: Vec<ShellHash> = Vec::new();
    if task.source_hashes.len() == 0 {
        sources.push(task.block_hash);
        assert(sources@ =~= task_sources(*task));
        return sources;
    }
    let mut i: usize = 0;
    while i < task.source_hashes.len()
        invariant
            i <= task.source_hashes@.len(),
            sources@ == task.source_hashes@.take(i as int),
        decreases task.source_hashes.len() - i,
    {
        sources.push(task.source_hashes[i]);
        i += 1;
        assert(sources@ =~= task.source_hashes@.take(i as int));
    }
    assert(sources@ =~= task.source_hashes@);
    sources
}

/// What the prover hands back for a task.
#[derive(Clone, Copy, Debug)]
pub struct FinishedProof {
    /// The number of signatures that the proof is over.
    pub n_sigs: usize,
    /// The root of what the proof is over.
    pub batch_root: [u8; 32],
    /// Length of the proof in bytes.
    pub proof_len: usize,
    /// Whether the proof and the size that the task states satisfy the compression threshold.
    pub compression_valid: bool,
    /// Size of the amendment, in bytes.
    pub size_bytes: u64,
}

/// The first height of a run of `count` blocks, or of one where `count` is zero, that ends at a
/// height; none where the chain has no room for it.
pub open spec fn run_start(end: u64, count: nat) -> Option<u64> {
    let len = if count == 0 {
        1
    } else {
        count
    };
    if end == u64::MAX || end + 1 < len {
        None
    } else {
        Some((end + 1 - len) as u64)
    }
}

/// Whether an amendment is the one that a finished proof of a task turns into.
pub open spec fn is_draft_of(
    amendment: ProofAmendment,
    task: ProofTask,
    proof: FinishedProof,
    prover_address: Address,
) -> bool {
    &&& amendment.block_hash == task.block_hash
    &&& amendment.block_number == task.block_number
    &&& amendment.range_start == run_start(task.block_number, task.source_hashes@.len())
    &&& amendment.layer == task.layer
    &&& amendment.covered@ == task_sources(task)
    &&& amendment.n_sigs == proof.n_sigs
    &&& amendment.batch_root == proof.batch_root
    &&& amendment.proof_len == proof.proof_len
    &&& amendment.compression_valid == proof.compression_valid
    &&& amendment.prover == prover_address
    &&& amendment.original_size == task.original_size
    &&& amendment.compressed_size is None
    &&& amendment.size_bytes == proof.size_bytes
}

fn draft_amendment(task: &ProofTask, proof: FinishedProof, prover_address: Address) -> (r:
    ProofAmendment)
    ensures
        is_draft_of(r, *task, proof, prover_address),
{
    let len: u64 = if task.source_hashes.len() == 0 {
        1
    } else {
        task.source_hashes.len() as u64
    };
    let range_start: Option<u64> = match task.block_number.checked_add(1) {
        Some(end_plus_one) => end_plus_one.checked_sub(len),
        None => None,
    };
    ProofAmendment {
        block_hash: task.block_hash,
        block_number: task.block_number,
        range_start,
        layer: task.layer,
        covered: sources_of(task),
        n_sigs: proof.n_sigs,
        batch_root: proof.batch_root,
        proof_len: proof.proof_len,
        compression_valid: proof.compression_valid,
        prover: prover_address,
        original_size: task.original_size,
        compressed_size: None,
        size_bytes: proof.size_bytes,
    }
}

/// How far the work on a task has got.
#[derive(Clone, Copy, Debug, PartialEq, Eq)]
pub enum TaskStage {
    /// The proof is to be made.
    Proving,
    /// The amendment is to be signed.
    Signing,
    /// The signed amendment is to be stored, in one write.
    Storing,
    /// The stored amendment is to be sent to the node.
    Sending,
    /// The work is over; the flag says whether the node has the amendment.
    Done(bool),
}

/// What came of the last piece of work.
#[derive(Clone, Copy, Debug, PartialEq, Eq)]
pub enum TaskEvent {
    /// The proof was made, or could not be.
    Proved(bool),
    /// There is no key to sign with.
    NoSigner,
    /// Signing failed.
    SignFailed,
    /// The amendment was signed in the name of an account.
    SignedBy(Address),
    /// The amendment was stored, or could not be.
    Stored(bool),
    /// There is no one to send the amendment to.
    NoReceiver,
    /// The amendment was sent, or the receiver is gone.
    Sent(bool),
}

/// The stage after a piece of work. What does not belong to a stage ends the work.
pub open spec fn next_stage(stage: TaskStage, event: TaskEvent, prover_address: Address) -> TaskStage {
    match (stage, event) {
        (TaskStage::Proving, TaskEvent::Proved(true)) => TaskStage::Signing,
        (TaskStage::Signing, TaskEvent::SignedBy(address)) => if address == prover_address {
            TaskStage::Storing
        } else {
            TaskStage::Done(false)
        },
        (TaskStage::Storing, TaskEvent::Stored(true)) => TaskStage::Sending,
        (TaskStage::Sending, TaskEvent::Sent(true)) => TaskStage::Done(true),
        (TaskStage::Done(handed_off), _) => TaskStage::Done(handed_off),
        _ => TaskStage::Done(false),
    }
}

/// The stage in which work on a task starts. There is nothing to prove in a first-layer task without
/// entries, and none is handed to the prover.
pub fn start_task(task: &ProofTask) -> (r: TaskStage)
    ensures
        r == if task.layer == 1 && task.entries == 0 {
            TaskStage::Done(false)
        } else {
            TaskStage::Proving
        },
{
    if task.layer == 1 && task.entries == 0 {
        TaskStage::Done(false)
    } else {
        TaskStage::Proving
    }
}

/// The stage after a piece of work.
fn advance_task(stage: TaskStage, event: TaskEvent, prover_address: &Address) -> (r: TaskStage)
    ensures
        r == next_stage(stage, event, *prover_address),
{
    match stage {
        TaskStage::Proving => match event {
            TaskEvent::Proved(true) => TaskStage::Signing,
            _ => TaskStage::Done(false),
        },
        TaskStage::Signing => match event {
            TaskEvent::SignedBy(address) => if address == *prover_address {
                TaskStage::Storing
            } else {
                TaskStage::Done(false)
            },
            _ => TaskStage::Done(false),
        },
        TaskStage::Storing => match event {
            TaskEvent::Stored(true) => TaskStage::Sending,
            _ => TaskStage::Done(false),
        },
        TaskStage::Sending => match event {
            TaskEvent::Sent(true) => TaskStage::Done(true),
            _ => TaskStage::Done(false),
        },
        TaskStage::Done(handed_off) => TaskStage::Done(handed_off),
    }
}

/// The stage after the first `n` of some pieces of work.
pub open spec fn stage_after(
    start: TaskStage,
    events: Seq<TaskEvent>,
    prover_address: Address,
    n: nat,
) -> TaskStage
    decreases n,
{
    if n == 0 {
        start
    } else {
        next_stage(
            stage_after(start, events, prover_address, (n - 1) as nat),
            events[n - 1],
            prover_address,
        )
    }
}

proof fn lemma_stage_prefix(
    events: Seq<TaskEvent>,
    prover_address: Address,
    n: nat,
)
    requires
        n <= events.len(),
    ensures
        ({
            let stage = stage_after(TaskStage::Proving, events, prover_address, n);
            &&& stage == TaskStage::Proving ==> n == 0
            &&& stage == TaskStage::Signing ==> n == 1 && events[0] == TaskEvent::Proved(true)
            &&& stage == TaskStage::Storing ==> n == 2 && events[0] == TaskEvent::Proved(true)
                && events[1] == TaskEvent::SignedBy(prover_address)
            &&& stage == TaskStage::Sending ==> n == 3 && events[0] == TaskEvent::Proved(true)
                && events[1] == TaskEvent::SignedBy(prover_address) && events[2]
                == TaskEvent::Stored(true)
            &&& stage == TaskStage::Done(true) ==> n >= 4 && events[0] == TaskEvent::Proved(true)
                && events[1] == TaskEvent::SignedBy(prover_address) && events[2]
                == TaskEvent::Stored(true) && events[3] == TaskEvent::Sent(true)
        }),
    decreases n,
{
    if n > 0 {
        lemma_stage_prefix(events, prover_address, (n - 1) as nat);
    }
}

/// An amendment reaches the node only if it was proved, signed in the name of the configured prover,
/// stored and sent, in this order.
pub proof fn law_handed_off_only_after_storing(events: Seq<TaskEvent>, prover_address: Address)
    requires
        stage_after(TaskStage::Proving, events, prover_address, events.len()) == TaskStage::Done(
            true,
        ),
    ensures
        events.len() >= 4,
        events[0] == TaskEvent::Proved(true),
        events[1] == TaskEvent::SignedBy(prover_address),
        events[2] == TaskEvent::Stored(true),
        events[3] == TaskEvent::Sent(true),
{
    lemma_stage_prefix(events, prover_address, events.len());
}

/// What becomes of a second-layer task.
#[derive(Debug, Clone, Copy, PartialEq, Eq, Structural)]
pub enum L2TaskOutcome {
    /// Second-layer proving is not active; the job stays ready.
    NotActive,
    /// There is no second-layer prover; no proof is made.
    NotImplemented,
}

/// Where the prover's loop stands.
#[derive(Debug, Clone, Copy, PartialEq, Eq, Structural)]
pub enum LoopPhase {
    /// It looks at its signals.
    Checking,
    /// It waits until the node is ready.
    Paused,
    /// It asks the backlog for a task.
    Polling,
    /// It sleeps before it asks again.
    Idle,
    /// It works on a task.
    Working,
    /// It has ended.
    Stopped,
}

/// A task that is being worked on, as the backlog knows it.
#[derive(Debug)]
pub struct InFlight {
    /// The layer of compression.
    pub layer: u32,
    /// Height of the last block of the run.
    pub block_number: u64,
    /// The blocks of the run.
    pub source_hashes: Vec<ShellHash>,
}

/// A task that is being worked on, as a mathematical value.
#[verifier::ext_equal]
pub struct InFlightView {
    pub layer: u32,
    pub block_number: u64,
    pub source_hashes: Seq<ShellHash>,
}

impl View for InFlight {
    type V = InFlightView;

    open spec fn view(&self) -> InFlightView {
        InFlightView {
            layer: self.layer,
            block_number: self.block_number,
            source_hashes: self.source_hashes@,
        }
    }
}

/// What the loop is to do next.
#[derive(Debug)]
pub enum LoopAction {
    /// Read the shutdown and readiness signals.
    Check,
    /// Wait until one of the two signals changes.
    AwaitReadiness,
    /// Ask the backlog for a task, in this order.
    Poll(ProvingPriority),
    /// Sleep, or wait for shutdown; the flag asks for a report of the stalled backlog first.
    Sleep(bool),
    /// Work on the task.
    Work,
    /// Tell the backlog that a task is no longer being worked on, then check.
    Release(InFlight),
    /// Stop.
    Stop,
}

/// What came of the last action.
#[derive(Debug)]
pub enum LoopEvent<'a> {
    /// The signals: whether to shut down, and whether the node is ready where it says so.
    Signals {
        /// Whether to shut down.
        shutdown: bool,
        /// Whether the node is ready, where there is such a signal.
        ready: Option<bool>,
    },
    /// The readiness signal changed, or its sender is gone.
    ReadinessChanged {
        /// Whether its sender is gone.
        closed: bool,
    },
    /// The shutdown signal changed, or its sender is gone.
    ShutdownChanged {
        /// Whether its sender is gone.
        closed: bool,
        /// Whether to shut down.
        raised: bool,
    },
    /// The backlog's answer: a task, or none, with its length, at a time in seconds.
    Polled {
        /// The task, if there is one to work on.
        task: Option<&'a ProofTask>,
        /// How many tasks the backlog holds.
        depth: usize,
        /// The time, in seconds of a monotonic clock.
        now: u64,
    },
    /// The sleep is over.
    Slept,
    /// The work is over; the flag says whether the node has the amendment.
    Worked(bool),
}

/// The prover service as a mathematical value.
#[verifier::ext_equal]
pub struct ServiceView {
    /// The configuration.
    pub config: ProverConfig,
    /// The account in whose name proofs are made.
    pub prover_address: Address,
    /// How far second-layer proving is switched on.
    pub l2_mode: L2StarkMode,
    /// Where its loop stands.
    pub phase: LoopPhase,
    /// When a stalled backlog was last reported, in seconds.
    pub last_stall_log: u64,
    /// The task that is being worked on.
    pub in_flight: Option<InFlightView>,
}

/// The background prover.
#[derive(Debug)]
pub struct ProverService {
    config: ProverConfig,
    prover_address: Address,
    l2_mode: L2StarkMode,
    phase: LoopPhase,
    last_stall_log: u64,
    in_flight: Option<InFlight>,
}

/// The task that is being worked on, as a mathematical value.
pub open spec fn flight_view(in_flight: Option<InFlight>) -> Option<InFlightView> {
    match in_flight {
        Some(f) => Some(f@),
        None => None,
    }
}

impl View for ProverService {
    type V = ServiceView;

    closed spec fn view(&self) -> ServiceView {
        ServiceView {
            config: self.config,
            prover_address: self.prover_address,
            l2_mode: self.l2_mode,
            phase: self.phase,
            last_stall_log: self.last_stall_log,
            in_flight: flight_view(self.in_flight),
        }
    }
}

/// The loop after an event. An event that does not belong to its phase changes nothing.
pub open spec fn loop_after(state: ServiceView, event: LoopEvent) -> ServiceView {
    match (state.phase, event) {
        (LoopPhase::Checking, LoopEvent::Signals { shutdown, ready }) => ServiceView {
            phase: if shutdown {
                LoopPhase::Stopped
            } else if ready == Some(false) {
                LoopPhase::Paused
            } else {
                LoopPhase::Polling
            },
            ..state
        },
        (LoopPhase::Paused, LoopEvent::ReadinessChanged { closed }) => ServiceView {
            phase: if closed {
                LoopPhase::Stopped
            } else {
                LoopPhase::Checking
            },
            ..state
        },
        (LoopPhase::Paused, LoopEvent::ShutdownChanged { closed, raised }) => ServiceView {
            phase: if closed || raised {
                LoopPhase::Stopped
            } else {
                LoopPhase::Checking
            },
            ..state
        },
        (LoopPhase::Polling, LoopEvent::Polled { task: Some(task), depth, now }) => ServiceView {
            phase: LoopPhase::Working,
            in_flight: Some(
                InFlightView {
                    layer: task.layer,
                    block_number: task.block_number,
                    source_hashes: task_sources(*task),
                },
            ),
            ..state
        },
        (LoopPhase::Polling, LoopEvent::Polled { task: None, depth, now }) => ServiceView {
            phase: LoopPhase::Idle,
            last_stall_log: if reports_stall(state, depth, now) {
                now
            } else {
                state.last_stall_log
            },
            ..state
        },
        (LoopPhase::Idle, LoopEvent::Slept) => ServiceView { phase: LoopPhase::Checking, ..state },
        (LoopPhase::Idle, LoopEvent::ShutdownChanged { closed, raised }) => ServiceView {
            phase: if raised {
                LoopPhase::Stopped
            } else {
                LoopPhase::Checking
            },
            ..state
        },
        (LoopPhase::Working, LoopEvent::Worked(handed_off)) => ServiceView {
            phase: LoopPhase::Checking,
            in_flight: None,
            ..state
        },
        _ => state,
    }
}

/// Whether a poll without a task is to be reported as a stall: the backlog holds tasks, and the last
/// report lies far enough back.
pub open spec fn reports_stall(state: ServiceView, depth: usize, now: u64) -> bool {
    depth > 0 && now - state.last_stall_log >= STALL_REPORT_SECS
}

/// The action that the phase of a loop stands for.
pub open spec fn phase_action(state: ServiceView) -> LoopAction {
    match state.phase {
        LoopPhase::Checking => LoopAction::Check,
        LoopPhase::Paused => LoopAction::AwaitReadiness,
        LoopPhase::Polling => LoopAction::Poll(state.config.proving_priority),
        LoopPhase::Idle => LoopAction::Sleep(false),
        LoopPhase::Working => LoopAction::Work,
        LoopPhase::Stopped => LoopAction::Stop,
    }
}

impl ProverService {
    /// A service that has not been started, with second-layer proving switched off.
    pub fn new(config: ProverConfig, prover_address: Address) -> (r: Self)
        ensures
            r@ == (ServiceView {
                config,
                prover_address,
                l2_mode: L2StarkMode::Disabled,
                phase: LoopPhase::Stopped,
                last_stall_log: 0,
                in_flight: None,
            }),
    {
        ProverService {
            config,
            prover_address,
            l2_mode: L2StarkMode::Disabled,
            phase: LoopPhase::Stopped,
            last_stall_log: 0,
            in_flight: None,
        }
    }

    /// Sets how far second-layer proving is switched on.
    pub fn with_l2_mode(self, mode: L2StarkMode) -> (r: Self)
        ensures
            r@ == (ServiceView { l2_mode: mode, ..self@ }),
    {
        let mut service = self;
        service.l2_mode = mode;
        service
    }

    /// Starts the service at a time in seconds: it is about to check its signals, with no task in
    /// flight. Where the clock has run for 300 seconds a stall can be reported at once, else only
    /// after the pause that lies between two reports.
    pub fn start(&mut self, now: u64) -> (r: LoopAction)
        ensures
            r == LoopAction::Check,
            final(self)@ == (ServiceView {
                phase: LoopPhase::Checking,
                last_stall_log: if now >= 300 {
                    (now - 300) as u64
                } else {
                    now
                },
                in_flight: None,
                ..old(self)@
            }),
    {
        self.last_stall_log = match now.checked_sub(300) {
            Some(earlier) => earlier,
            None => now,
        };
        self.phase = LoopPhase::Checking;
        self.in_flight = None;
        LoopAction::Check
    }

    /// How long to sleep between polls, in milliseconds.
    pub fn idle_poll_ms(&self) -> (r: u64)
        ensures
            r == self@.config.idle_poll_ms,
    {
        self.config.idle_poll_ms
    }

    /// The amendment that a finished proof turns into, in the name of this prover.
    pub fn draft(&self, task: &ProofTask, proof: FinishedProof) -> (r: ProofAmendment)
        ensures
            is_draft_of(r, *task, proof, self@.prover_address),
    {
        draft_amendment(task, proof, self.prover_address)
    }

    /// The stage of a task after a piece of work.
    ///
    /// An amendment is stored only when it is signed in the name of this prover, and sent only when
    /// it is stored.
    pub fn process_task(&self, stage: TaskStage, event: TaskEvent) -> (r: TaskStage)
        ensures
            r == next_stage(stage, event, self@.prover_address),
    {
        advance_task(stage, event, &self.prover_address)
    }

    /// What becomes of a second-layer task. In no mode does it lead to a proof.
    pub fn process_l2_task(&self) -> (r: L2TaskOutcome)
        ensures
            r == if self@.l2_mode == L2StarkMode::Active {
                L2TaskOutcome::NotImplemented
            } else {
                L2TaskOutcome::NotActive
            },
    {
        if self.l2_mode.is_active() {
            L2TaskOutcome::NotImplemented
        } else {
            L2TaskOutcome::NotActive
        }
    }

    fn action(&self) -> (r: LoopAction)
        ensures
            r == phase_action(self@),
    {
        match self.phase {
            LoopPhase::Checking => LoopAction::Check,
            LoopPhase::Paused => LoopAction::AwaitReadiness,
            LoopPhase::Polling => LoopAction::Poll(self.config.proving_priority),
            LoopPhase::Idle => LoopAction::Sleep(false),
            LoopPhase::Working => LoopAction::Work,
            LoopPhase::Stopped => LoopAction::Stop,
        }
    }

    /// Takes note of what came of the last action, and says what to do next.
    ///
    /// The loop stops on shutdown, and does not poll while the node is not ready. A poll without a
    /// task is reported as a stall at most once a minute, and only while the backlog holds tasks. A
    /// task whose amendment did not reach the node is given back.
    pub fn run_loop(&mut self, event: LoopEvent) -> (r: LoopAction)
        ensures
            final(self)@ == loop_after(old(self)@, event),
            match (old(self)@.phase, event) {
                (LoopPhase::Polling, LoopEvent::Polled { task: None, depth, now }) => r
                    == LoopAction::Sleep(reports_stall(old(self)@, depth, now)),
                (LoopPhase::Working, LoopEvent::Worked(handed_off)) => if !handed_off && old(
                    self,
                )@.in_flight is Some {
                    r matches LoopAction::Release(f) && Some(f@) == old(self)@.in_flight
                } else {
                    r == LoopAction::Check
                },
                _ => r == phase_action(final(self)@),
            },
    {
        match self.phase {
            LoopPhase::Checking => {
                if let LoopEvent::Signals { shutdown, ready } = event {
                    let paused: bool = match ready {
                        Some(flag) => !flag,
                        None => false,
                    };
                    self.phase = if shutdown {
                        LoopPhase::Stopped
                    } else if paused {
                        LoopPhase::Paused
                    } else {
                        LoopPhase::Polling
                    };
                }
                self.action()
            },
            LoopPhase::Paused => {
                match event {
                    LoopEvent::ReadinessChanged { closed } => {
                        self.phase = if closed {
                            LoopPhase::Stopped
                        } else {
                            LoopPhase::Checking
                        };
                    },
                    LoopEvent::ShutdownChanged { closed, raised } => {
                        self.phase = if closed || raised {
                            LoopPhase::Stopped
                        } else {
                            LoopPhase::Checking
                        };
                    },
                    _ => {},
                }
                self.action()
            },
            LoopPhase::Polling => {
                if let LoopEvent::Polled { task, depth, now } = event {
                    match task {
                        Some(task) => {
                            self.in_flight = Some(
                                InFlight {
                                    layer: task.layer,
                                    block_number: task.block_number,
                                    source_hashes: sources_of(task),
                                },
                            );
                            self.phase = LoopPhase::Working;
                        },
                        None => {
                            let due: bool = depth > 0 && now >= self.last_stall_log && now
                                - self.last_stall_log >= STALL_REPORT_SECS;
                            if due {
                                self.last_stall_log = now;
                            }
                            self.phase = LoopPhase::Idle;
                            return LoopAction::Sleep(due);
                        },
                    }
                }
                self.action()
            },
            LoopPhase::Idle => {
                match event {
                    LoopEvent::Slept => {
                        self.phase = LoopPhase::Checking;
                    },
                    LoopEvent::ShutdownChanged { closed, raised } => {
                        self.phase = if raised {
                            LoopPhase::Stopped
                        } else {
                            LoopPhase::Checking
                        };
                    },
                    _ => {},
                }
                self.action()
            },
            LoopPhase::Working => {
                if let LoopEvent::Worked(handed_off) = event {
                    let in_flight = self.in_flight.take();
                    self.phase = LoopPhase::Checking;
                    match in_flight {
                        Some(f) => {
                            if !handed_off {
                                return LoopAction::Release(f);
                            }
                        },
                        None => {},
                    }
                }
                self.action()
            },
            LoopPhase::Stopped => LoopAction::Stop,
        }
    }
}

/// A stopped loop stays stopped, whatever happens.
pub proof fn law_stopped_stays_stopped(state: ServiceView, event: LoopEvent)
    requires
        state.phase == LoopPhase::Stopped,
    ensures
        loop_after(state, event) == state,
{
}

/// The backlog is polled only after the signals showed neither shutdown nor a node that is not
/// ready.
pub proof fn law_polls_only_when_ready(state: ServiceView, event: LoopEvent)
    requires
        state.phase != LoopPhase::Polling,
        loop_after(state, event).phase == LoopPhase::Polling,
    ensures
        event matches LoopEvent::Signals { shutdown, ready } && !shutdown && ready != Some(false),
{
}

/// Whether a task is in flight exactly while the loop works on one.
pub open spec fn flight_matches_phase(state: ServiceView) -> bool {
    state.in_flight is Some <==> state.phase == LoopPhase::Working
}

/// A task is in flight exactly while the loop works on one.
pub proof fn law_in_flight_only_while_working(state: ServiceView, event: LoopEvent)
    requires
        flight_matches_phase(state),
    ensures
        flight_matches_phase(loop_after(state, event)),
{
}

/// The amendment of a finished proof covers as many heights as it has sources, up to its target,
/// wherever the chain has room for them.
pub proof fn law_run_fits_its_sources(end: u64, count: nat)
    requires
        count > 0,
    ensures
        run_start(end, count) matches Some(start) ==> start + count == end + 1,
        run_start(end, count) is None <==> end == u64::MAX || count > end + 1,
{
}

proof fn lemma_done_stays(
    start: TaskStage,
    events: Seq<TaskEvent>,
    prover_address: Address,
    n: nat,
    m: nat,
)
    requires
        n <= m,
        stage_after(start, events, prover_address, n) is Done,
    ensures
        stage_after(start, events, prover_address, m) == stage_after(
            start,
            events,
            prover_address,
            n,
        ),
    decreases m,
{
    if n < m {
        lemma_done_stays(start, events, prover_address, n, (m - 1) as nat);
    }
}

/// The event that a step of the work on a task needs in order to go on.
pub open spec fn goes_on(events: Seq<TaskEvent>, prover_address: Address, i: int) -> bool {
    &&& i == 0 ==> events[0] == TaskEvent::Proved(true)
    &&& i == 1 ==> events[1] == TaskEvent::SignedBy(prover_address)
    &&& i == 2 ==> events[2] == TaskEvent::Stored(true)
    &&& i == 3 ==> events[3] == TaskEvent::Sent(true)
}

/// An amendment that is proved, signed in the name of the configured prover, stored and sent, in this
/// order, reaches the node; the first piece of work that goes otherwise ends the task without it.
pub proof fn law_task_goes_through_four_steps(
    events: Seq<TaskEvent>,
    prover_address: Address,
    i: int,
)
    requires
        0 <= i < 4,
        i < events.len(),
        forall|j: int| 0 <= j < i ==> #[trigger] goes_on(events, prover_address, j),
    ensures
        ({
            let end = stage_after(TaskStage::Proving, events, prover_address, events.len());
            &&& !goes_on(events, prover_address, i) ==> end == TaskStage::Done(false)
            &&& i == 3 && goes_on(events, prover_address, 3) ==> end == TaskStage::Done(true)
        }),
{
    reveal_with_fuel(stage_after, 5);
    assert(i > 0 ==> goes_on(events, prover_address, 0));
    assert(i > 1 ==> goes_on(events, prover_address, 1));
    assert(i > 2 ==> goes_on(events, prover_address, 2));
    let reached = stage_after(TaskStage::Proving, events, prover_address, (i + 1) as nat);
    if !goes_on(events, prover_address, i) {
        assert(reached == TaskStage::Done(false));
    } else if i == 3 {
        assert(reached == TaskStage::Done(true));
    }
    if reached is Done {
        lemma_done_stays(
            TaskStage::Proving,
            events,
            prover_address,
            (i + 1) as nat,
            events.len(),
        );
    }
}

/// The loop goes round: it polls when nothing keeps it, works on a task that it gets, sleeps when it
/// gets none, and looks at its signals again after either.
pub proof fn law_loop_goes_round(state: ServiceView, event: LoopEvent)
    ensures
        ({
            let after = loop_after(state, event);
            &&& state.phase == LoopPhase::Checking ==> (event matches LoopEvent::Signals {
                shutdown,
                ready,
            } && !shutdown && ready != Some(false) ==> after.phase == LoopPhase::Polling)
            &&& state.phase == LoopPhase::Checking ==> (event matches LoopEvent::Signals {
                shutdown,
                ready,
            } && !shutdown && ready == Some(false) ==> after.phase == LoopPhase::Paused)
            &&& state.phase == LoopPhase::Polling ==> (event matches LoopEvent::Polled {
                task: Some(task),
                depth,
                now,
            } ==> {
                &&& after.phase == LoopPhase::Working
                &&& after.in_flight matches Some(flight)
                &&& flight.layer == task.layer
                &&& flight.block_number == task.block_number
                &&& task.source_hashes@.len() > 0 ==> flight.source_hashes == task.source_hashes@
                &&& task.source_hashes@.len() == 0 ==> flight.source_hashes == seq![task.block_hash]
                &&& after.last_stall_log == state.last_stall_log
            })
            &&& state.phase == LoopPhase::Polling ==> (event matches LoopEvent::Polled {
                task: None,
                depth,
                now,
            } ==> after.phase == LoopPhase::Idle && after.in_flight == state.in_flight)
            &&& state.phase == LoopPhase::Idle && event == LoopEvent::Slept ==> after.phase
                == LoopPhase::Checking
            &&& state.phase == LoopPhase::Working ==> (event matches LoopEvent::Worked(_)
                ==> after.phase == LoopPhase::Checking && after.in_flight is None)
            &&& after.config == state.config
            &&& after.prover_address == state.prover_address
            &&& after.l2_mode == state.l2_mode
        }),
{
}

/// The loop stops when it sees a shutdown, wherever it waits, and for nothing else but that the
/// signals it waits for can no longer come.
pub proof fn law_what_stops_the_loop(state: ServiceView, event: LoopEvent)
    requires
        state.phase != LoopPhase::Stopped,
    ensures
        loop_after(state, event).phase == LoopPhase::Stopped <==> match event {
            LoopEvent::Signals { shutdown, ready } => state.phase == LoopPhase::Checking && shutdown,
            LoopEvent::ReadinessChanged { closed } => state.phase == LoopPhase::Paused && closed,
            LoopEvent::ShutdownChanged { closed, raised } => (state.phase == LoopPhase::Paused && (
            closed || raised)) || (state.phase == LoopPhase::Idle && raised),
            _ => false,
        },
{
}

/// A change of the signals that does not stop a waiting loop makes it look at them again.
pub proof fn law_signals_wake_the_loop(state: ServiceView, event: LoopEvent)
    requires
        state.phase == LoopPhase::Paused || state.phase == LoopPhase::Idle,
        event is ShutdownChanged || (event is ReadinessChanged && state.phase == LoopPhase::Paused),
        loop_after(state, event).phase != LoopPhase::Stopped,
    ensures
        loop_after(state, event).phase == LoopPhase::Checking,
{
}

/// A stall is noted exactly if the loop polled, got no task although there are some, and noted none
/// within the last minute; the moment of the last note changes at no other time.
pub proof fn law_stalls_are_noted_once_a_minute(state: ServiceView, event: LoopEvent)
    ensures
        ({
            let after = loop_after(state, event);
            let stalled = state.phase == LoopPhase::Polling && (event matches LoopEvent::Polled {
                task: None,
                depth,
                now,
            } && depth > 0 && now >= state.last_stall_log + 60);
            &&& stalled ==> (event matches LoopEvent::Polled { task, depth, now }
                ==> after.last_stall_log == now)
            &&& !stalled ==> after.last_stall_log == state.last_stall_log
        }),
{
}

/// The blocks of a task are those that it names, or its last block where it names none; the amendment
/// of a finished proof covers them, and as many heights as they are up to its target.
pub proof fn law_draft_covers_the_task(
    amendment: ProofAmendment,
    task: ProofTask,
    proof_made: FinishedProof,
    prover_address: Address,
)
    requires
        is_draft_of(amendment, task, proof_made, prover_address),
    ensures
        task.source_hashes@.len() > 0 ==> amendment.covered@ == task.source_hashes@,
        task.source_hashes@.len() == 0 ==> amendment.covered@ == seq![task.block_hash],
        amendment.range_start matches Some(start) ==> start + amendment.covered@.len()
            == task.block_number + 1,
        amendment.range_start is None ==> task.block_number == u64::MAX
            || amendment.covered@.len() > task.block_number + 1,
        amendment.block_hash == task.block_hash,
        amendment.block_number == task.block_number,
        amendment.layer == task.layer,
        amendment.prover == prover_address,
        amendment.n_sigs == proof_made.n_sigs,
        amendment.batch_root == proof_made.batch_root,
        amendment.proof_len == proof_made.proof_len,
        amendment.compression_valid == proof_made.compression_valid,
        amendment.size_bytes == proof_made.size_bytes,
        amendment.original_size == task.original_size,
        amendment.compressed_size is None,
{
}

/// In order of heights no waiting block is below the next one, and none of its height came before it;
/// otherwise the next one came last. There is exactly one next one where any waits.
pub proof fn law_one_task_comes_next(priority: ProvingPriority, heights: Seq<u64>, a: int, b: int)
    requires
        is_next_task(priority, heights, a),
    ensures
        is_next_task(priority, heights, b) ==> a == b,
        priority == ProvingPriority::Sequential && 0 <= b < heights.len() ==> heights[a] < heights[b]
            || (heights[a] == heights[b] && a <= b),
        priority == ProvingPriority::LatestFirst && 0 <= b < heights.len() ==> b <= a,
{
    if is_next_task(priority, heights, b) {
        let one = heights[a];
        let other = heights[b];
        assert(priority == ProvingPriority::Sequential ==> one == other);
    }
}

/// A started loop looks at its signals first, with no task in flight, and may note a stall at once
/// where the clock has run for long enough.
pub proof fn law_a_started_loop(service: &mut ProverService, now: u64, action: LoopAction)
    requires
        call_ensures(ProverService::start, (service, now), action),
    ensures
        action == LoopAction::Check,
        final(service)@.phase == LoopPhase::Checking,
        final(service)@.in_flight is None,
        now >= 300 ==> final(service)@.last_stall_log == now - 300,
        now < 300 ==> final(service)@.last_stall_log == now,
        final(service)@.config == old(service)@.config,
        final(service)@.prover_address == old(service)@.prover_address,
        final(service)@.l2_mode == old(service)@.l2_mode,
{
}

/// After each event the loop is told to do what its phase stands for. A poll without a task is followed
/// by sleep, with a note exactly if there is a stall to note; work that did not reach the node is
/// followed by its release.
pub proof fn law_what_the_loop_does_next(
    service: &mut ProverService,
    event: LoopEvent<'_>,
    action: LoopAction,
)
    requires
        call_ensures(ProverService::run_loop, (service, event), action),
        flight_matches_phase(old(service)@),
    ensures
        final(service)@.phase == LoopPhase::Stopped ==> action == LoopAction::Stop,
        final(service)@.phase == LoopPhase::Paused ==> action == LoopAction::AwaitReadiness,
        final(service)@.phase == LoopPhase::Polling ==> action == LoopAction::Poll(
            old(service)@.config.proving_priority,
        ),
        final(service)@.phase == LoopPhase::Working ==> action == LoopAction::Work,
        final(service)@.phase == LoopPhase::Idle ==> action is Sleep,
        old(service)@.phase == LoopPhase::Working ==> (event matches LoopEvent::Worked(reached)
            ==> if reached {
            action == LoopAction::Check
        } else {
            action matches LoopAction::Release(flight) && Some(flight@) == old(service)@.in_flight
        }),
        old(service)@.phase == LoopPhase::Polling ==> (event matches LoopEvent::Polled {
            task: None,
            depth,
            now,
        } ==> action == LoopAction::Sleep(depth > 0 && now >= old(service)@.last_stall_log + 60)),
{
}

/// No second-layer proof is made; a job is left alone unless second-layer proving is active.
pub proof fn law_second_layer_tasks(service: ProverService, outcome: L2TaskOutcome)
    requires
        call_ensures(ProverService::process_l2_task, (&service,), outcome),
    ensures
        outcome == L2TaskOutcome::NotImplemented <==> service@.l2_mode == L2StarkMode::Active,
        outcome == L2TaskOutcome::NotActive <==> service@.l2_mode != L2StarkMode::Active,
{
}

/// A task is handed to the prover unless it is a first-layer one without entries.
pub proof fn law_tasks_that_are_started(task: ProofTask, stage: TaskStage)
    requires
        call_ensures(start_task, (&task,), stage),
    ensures
        task.layer != 1 || task.entries > 0 ==> stage == TaskStage::Proving,
        task.layer == 1 && task.entries == 0 ==> stage == TaskStage::Done(false),
{
}

} // verus!
