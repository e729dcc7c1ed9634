use shell_node::primitives::{Address, ShellHash};
use shell_node::prover::{
    next_task_position, start_task, FinishedProof, L2StarkMode, L2TaskOutcome, LoopAction, LoopEvent, ProofTask,
    ProverConfig, ProverService, ProvingPriority, TaskEvent, TaskStage,
};

fn prover_address() -> Address {
    Address::from([9u8; 32])
}

fn service() -> ProverService {
    ProverService::new(ProverConfig::default(), prover_address())
}

fn task(entries: usize) -> ProofTask {
    ProofTask {
        block_hash: ShellHash::from([2u8; 32]),
        block_number: 11,
        entries,
        source_hashes: vec![ShellHash::from([1u8; 32]), ShellHash::from([2u8; 32])],
        layer: 1,
        original_size: Some(10_000),
    }
}

fn finished() -> FinishedProof {
    FinishedProof {
        n_sigs: 600,
        batch_root: [5u8; 32],
        proof_len: 1_000,
        compression_valid: true,
        size_bytes: 1_200,
    }
}

fn signals(shutdown: bool, ready: Option<bool>) -> LoopEvent<'static> {
    LoopEvent::Signals { shutdown, ready }
}

#[test]
fn prover_config_defaults() {
    let cfg = ProverConfig::default();
    assert_eq!(cfg.max_concurrent_proofs, 1);
    assert_eq!(cfg.proving_priority, ProvingPriority::Sequential);
    assert_eq!(cfg.idle_poll_ms, 200);
}

#[test]
fn prover_config_custom() {
    let cfg = ProverConfig {
        max_concurrent_proofs: 4,
        proving_priority: ProvingPriority::LatestFirst,
        idle_poll_ms: 50,
    };
    assert_eq!(cfg.max_concurrent_proofs, 4);
    assert_eq!(cfg.proving_priority, ProvingPriority::LatestFirst);
}

#[test]
fn tasks_are_taken_by_height_or_by_arrival() {
    let arrived = vec![7, 5, 9, 5, 8];
    assert_eq!(
        next_task_position(ProvingPriority::Sequential, &arrived),
        Some(1)
    );
    assert_eq!(
        next_task_position(ProvingPriority::LatestFirst, &arrived),
        Some(4)
    );
    for priority in [ProvingPriority::Sequential, ProvingPriority::LatestFirst] {
        assert_eq!(next_task_position(priority, &vec![3]), Some(0));
        assert_eq!(next_task_position(priority, &vec![]), None);
    }
}

#[test]
fn proving_priority_variants() {
    assert_ne!(ProvingPriority::Sequential, ProvingPriority::LatestFirst);
}

#[test]
fn a_service_that_was_not_started_does_nothing() {
    let mut service = service();
    assert!(matches!(service.run_loop(signals(false, None)), LoopAction::Stop));
}

#[test]
fn loop_stops_on_shutdown() {
    let mut service = service();
    assert!(matches!(service.start(1_000), LoopAction::Check));
    assert!(matches!(service.run_loop(signals(true, None)), LoopAction::Stop));
    assert!(matches!(service.run_loop(signals(false, None)), LoopAction::Stop));
}

#[test]
fn loop_sleeps_over_an_empty_backlog() {
    let mut service = service();
    service.start(1_000);
    assert!(matches!(
        service.run_loop(signals(false, None)),
        LoopAction::Poll(ProvingPriority::Sequential)
    ));
    let polled = LoopEvent::Polled {
        task: None,
        depth: 0,
        now: 1_000,
    };
    assert!(matches!(service.run_loop(polled), LoopAction::Sleep(false)));
    assert_eq!(service.idle_poll_ms(), 200);
    assert!(matches!(service.run_loop(LoopEvent::Slept), LoopAction::Check));
}

#[test]
fn loop_waits_for_readiness() {
    let mut service = service();
    service.start(0);
    assert!(matches!(
        service.run_loop(signals(false, Some(false))),
        LoopAction::AwaitReadiness
    ));
    assert!(matches!(
        service.run_loop(LoopEvent::ReadinessChanged { closed: false }),
        LoopAction::Check
    ));
    assert!(matches!(
        service.run_loop(signals(false, Some(true))),
        LoopAction::Poll(_)
    ));
}

#[test]
fn loop_stops_when_a_signal_is_gone_while_paused() {
    let mut first = service();
    first.start(0);
    first.run_loop(signals(false, Some(false)));
    assert!(matches!(
        first.run_loop(LoopEvent::ReadinessChanged { closed: true }),
        LoopAction::Stop
    ));
    let mut second = service();
    second.start(0);
    second.run_loop(signals(false, Some(false)));
    let gone = LoopEvent::ShutdownChanged {
        closed: true,
        raised: false,
    };
    assert!(matches!(second.run_loop(gone), LoopAction::Stop));
}

#[test]
fn loop_polls_in_the_configured_order() {
    let config = ProverConfig {
        proving_priority: ProvingPriority::LatestFirst,
        ..ProverConfig::default()
    };
    let mut service = ProverService::new(config, prover_address());
    service.start(0);
    assert!(matches!(
        service.run_loop(signals(false, None)),
        LoopAction::Poll(ProvingPriority::LatestFirst)
    ));
}

#[test]
fn stalled_backlog_is_reported_at_most_once_a_minute() {
    let mut service = service();
    service.start(1_000);
    let mut poll = |now: u64, depth: usize| {
        service.run_loop(signals(false, None));
        let action = service.run_loop(LoopEvent::Polled {
            task: None,
            depth,
            now,
        });
        service.run_loop(LoopEvent::Slept);
        match action {
            LoopAction::Sleep(report) => report,
            _ => panic!("a poll without a task leads to sleep"),
        }
    };
    assert!(!poll(1_000, 0));
    assert!(poll(1_000, 1));
    assert!(!poll(1_059, 1));
    assert!(poll(1_060, 1));
}

#[test]
fn a_task_that_did_not_reach_the_node_is_released() {
    let mut service = service();
    service.start(0);
    service.run_loop(signals(false, None));
    let task = task(600);
    let polled = LoopEvent::Polled {
        task: Some(&task),
        depth: 1,
        now: 0,
    };
    assert!(matches!(service.run_loop(polled), LoopAction::Work));
    match service.run_loop(LoopEvent::Worked(false)) {
        LoopAction::Release(f) => {
            assert_eq!((f.layer, f.block_number), (1, 11));
            assert_eq!(f.source_hashes, task.source_hashes);
        }
        _ => panic!("the task must be released"),
    }
    service.run_loop(signals(false, None));
    service.run_loop(LoopEvent::Polled {
        task: Some(&task),
        depth: 1,
        now: 0,
    });
    assert!(matches!(
        service.run_loop(LoopEvent::Worked(true)),
        LoopAction::Check
    ));
}

#[test]
fn an_empty_first_layer_task_is_not_proved() {
    assert_eq!(start_task(&task(0)), TaskStage::Done(false));
    assert_eq!(start_task(&task(600)), TaskStage::Proving);
    let mut recursive = task(0);
    recursive.layer = 2;
    assert_eq!(start_task(&recursive), TaskStage::Proving);
}

#[test]
fn a_task_is_handed_off_only_after_it_is_stored() {
    let service = service();
    let mut stage = start_task(&task(600));
    for event in [
        TaskEvent::Proved(true),
        TaskEvent::SignedBy(prover_address()),
        TaskEvent::Stored(true),
        TaskEvent::Sent(true),
    ] {
        stage = service.process_task(stage, event);
    }
    assert_eq!(stage, TaskStage::Done(true));

    assert_eq!(
        service.process_task(TaskStage::Storing, TaskEvent::Sent(true)),
        TaskStage::Done(false)
    );
}

#[test]
fn each_failure_ends_the_work_on_a_task() {
    let service = service();
    for (stage, event) in [
        (TaskStage::Proving, TaskEvent::Proved(false)),
        (TaskStage::Signing, TaskEvent::NoSigner),
        (TaskStage::Signing, TaskEvent::SignFailed),
        (
            TaskStage::Signing,
            TaskEvent::SignedBy(Address::from([8u8; 32])),
        ),
        (TaskStage::Storing, TaskEvent::Stored(false)),
        (TaskStage::Sending, TaskEvent::NoReceiver),
        (TaskStage::Sending, TaskEvent::Sent(false)),
    ] {
        assert_eq!(service.process_task(stage, event), TaskStage::Done(false));
    }
}

#[test]
fn a_draft_covers_the_run_of_its_task() {
    let amendment = service().draft(&task(600), finished());
    assert_eq!(amendment.block_number, 11);
    assert_eq!(amendment.range_start, Some(10));
    assert_eq!(amendment.covered.len(), 2);
    assert_eq!(amendment.n_sigs, 600);
    assert_eq!(amendment.prover, prover_address());
    assert_eq!(amendment.original_size, Some(10_000));

    let mut lone = task(600);
    lone.source_hashes = vec![];
    let amendment = service().draft(&lone, finished());
    assert_eq!(amendment.range_start, Some(11));
    assert_eq!(amendment.covered, vec![lone.block_hash]);

    let mut low = task(600);
    low.block_number = 0;
    assert_eq!(service().draft(&low, finished()).range_start, None);
}

#[test]
fn no_second_layer_mode_makes_a_proof() {
    assert_eq!(service().process_l2_task(), L2TaskOutcome::NotActive);
    let scaffold = service().with_l2_mode(L2StarkMode::Scaffold);
    assert_eq!(scaffold.process_l2_task(), L2TaskOutcome::NotActive);
    let active = service().with_l2_mode(L2StarkMode::Active);
    assert_eq!(active.process_l2_task(), L2TaskOutcome::NotImplemented);
}
