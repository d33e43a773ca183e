use lnp2::job::progress::{
    JobControl, JobRunner, JobState, JobStats, JobStatus, PauseReason, Phase, RunAction,
    RunBoard, RunEvent,
};
use lnp2::job::types::{JobStep, NozzleAssignment, NozzleId, PlacementState, TipChange};

fn assignment(nozzle: NozzleId, part: &str, placement_idx: usize) -> NozzleAssignment {
    NozzleAssignment {
        nozzle,
        tip_id: "N045".into(),
        feeder_id: "slot_1".into(),
        part_id: part.into(),
        board_idx: 0,
        placement_idx,
    }
}

fn ok() -> RunEvent {
    RunEvent::Succeeded { retries: 0 }
}

fn runner(fiducials: usize) -> JobRunner {
    let state = JobState::start(&vec![vec![true, true, false]]);
    JobRunner::new(
        state,
        vec![RunBoard {
            enabled: true,
            fiducials,
        }],
    )
}

fn cycle(a: Vec<NozzleAssignment>) -> Vec<JobStep> {
    let copy = |v: &Vec<NozzleAssignment>| v.iter().map(|x| x.duplicate()).collect::<Vec<_>>();
    vec![
        JobStep::PickBatch(copy(&a)),
        JobStep::AlignBatch(copy(&a)),
        JobStep::PlaceBatch(a),
    ]
}

#[test]
fn job_stats_start_at_zero() {
    let s = JobStats::new(7);
    assert_eq!(s.total_placements, 7);
    assert_eq!(s.completed + s.failed + s.skipped + s.pick_retries, 0);
}

#[test]
fn start_marks_disabled_placements_skipped() {
    let s = JobState::start(&vec![vec![true, false], vec![], vec![true]]);
    assert_eq!(s.stats.total_placements, 2);
    assert_eq!(s.boards.len(), 3);
    assert!(matches!(s.boards[0].placements[0], PlacementState::Pending));
    assert!(matches!(s.boards[0].placements[1], PlacementState::Skipped));
    assert!(matches!(s.boards[2].placements[0], PlacementState::Pending));
    assert_eq!(s.boards[2].board_idx, 2);
    assert!(matches!(s.status, JobStatus::Running));
}

#[test]
fn a_job_runs_through_its_plan() {
    let mut r = runner(2);
    assert!(matches!(r.step(RunEvent::Begin), RunAction::CheckControl));
    assert!(matches!(r.step(RunEvent::NoControl), RunAction::LocateBoard { board_idx: 0 }));
    assert!(matches!(r.step(ok()), RunAction::Plan));
    let mut plan = vec![JobStep::ChangeTips(vec![TipChange {
        nozzle: NozzleId::N1,
        from_tip: None,
        to_tip: "N045".into(),
    }])];
    plan.extend(cycle(vec![
        assignment(NozzleId::N1, "R1", 0),
        assignment(NozzleId::N2, "R2", 1),
    ]));
    assert!(matches!(r.step(RunEvent::Planned(plan)), RunAction::CheckControl));
    assert!(matches!(r.step(RunEvent::NoControl), RunAction::ChangeTips(_)));
    assert!(matches!(r.step(ok()), RunAction::CheckControl));
    assert_eq!(r.n1_tip.as_deref(), Some("N045"));
    assert!(r.n2_tip.is_none());
    assert!(matches!(r.step(RunEvent::NoControl), RunAction::Pick(_)));
    assert!(matches!(r.step(RunEvent::Succeeded { retries: 2 }), RunAction::Pick(_)));
    assert!(matches!(r.step(ok()), RunAction::CheckControl));
    assert_eq!(r.job.stats.pick_retries, 2);
    assert!(matches!(r.step(RunEvent::NoControl), RunAction::Align(_)));
    assert!(matches!(
        r.step(RunEvent::Failed {
            error: "no part seen".into()
        }),
        RunAction::Align(_)
    ));
    assert!(matches!(r.step(ok()), RunAction::CheckControl));
    match r.step(RunEvent::NoControl) {
        RunAction::Place(a) => assert_eq!(a.placement_idx, 0),
        _ => panic!("expected a place"),
    }
    assert!(matches!(r.step(ok()), RunAction::Place(_)));
    assert!(matches!(
        r.step(RunEvent::Failed {
            error: "still on nozzle".into()
        }),
        RunAction::Finish(JobStatus::Complete)
    ));
    assert!(matches!(r.job.boards[0].placements[0], PlacementState::Placed));
    match &r.job.boards[0].placements[1] {
        PlacementState::Failed { reason } => assert_eq!(reason, "still on nozzle"),
        _ => panic!("expected a failed placement"),
    }
    assert_eq!(r.job.stats.completed, 1);
    assert_eq!(r.job.stats.failed, 1);
    assert_eq!(r.phase, Phase::Done);
    assert!(matches!(r.step(ok()), RunAction::Idle));
}

#[test]
fn boards_without_two_fiducials_use_their_origin() {
    let mut r = runner(1);
    r.step(RunEvent::Begin);
    assert!(matches!(r.step(RunEvent::NoControl), RunAction::UseOrigin { board_idx: 0 }));
}

#[test]
fn disabled_boards_are_passed_over() {
    let state = JobState::start(&vec![vec![true], vec![true]]);
    let mut r = JobRunner::new(
        state,
        vec![
            RunBoard {
                enabled: false,
                fiducials: 3,
            },
            RunBoard {
                enabled: true,
                fiducials: 0,
            },
        ],
    );
    assert!(matches!(r.step(RunEvent::Begin), RunAction::CheckControl));
    assert!(matches!(r.step(RunEvent::NoControl), RunAction::UseOrigin { board_idx: 1 }));
}

#[test]
fn a_failed_fiducial_check_ends_the_job() {
    let mut r = runner(2);
    r.step(RunEvent::Begin);
    r.step(RunEvent::NoControl);
    match r.step(RunEvent::Failed {
        error: "not found".into(),
    }) {
        RunAction::Finish(JobStatus::Error { message }) => {
            assert_eq!(message, "Fiducial check failed: not found")
        }
        _ => panic!("expected the job to end"),
    }
}

#[test]
fn a_failed_tip_change_ends_the_job() {
    let mut r = runner(0);
    r.step(RunEvent::Begin);
    r.step(RunEvent::NoControl);
    r.step(ok());
    let plan = vec![JobStep::ChangeTips(vec![])];
    r.step(RunEvent::Planned(plan));
    r.step(RunEvent::NoControl);
    match r.step(RunEvent::Failed {
        error: "stuck".into(),
    }) {
        RunAction::Finish(JobStatus::Error { message }) => assert_eq!(message, "Tip change failed: stuck"),
        _ => panic!("expected the job to end"),
    }
}

#[test]
fn abort_ends_the_job() {
    let mut r = runner(2);
    r.step(RunEvent::Begin);
    match r.step(RunEvent::Control(JobControl::Abort)) {
        RunAction::Finish(JobStatus::Error { message }) => assert_eq!(message, "Job aborted"),
        _ => panic!("expected the job to end"),
    }
    assert!(matches!(r.job.status, JobStatus::Error { .. }));
}

#[test]
fn pause_skip_and_resume() {
    let mut r = runner(2);
    r.step(RunEvent::Begin);
    assert!(matches!(
        r.step(RunEvent::Control(JobControl::Pause)),
        RunAction::Pause(PauseReason::UserRequested)
    ));
    assert!(matches!(r.job.status, JobStatus::Paused { .. }));
    assert!(matches!(
        r.step(RunEvent::Control(JobControl::SkipPlacement {
            board_idx: 0,
            placement_idx: 1
        })),
        RunAction::AwaitControl
    ));
    assert!(matches!(r.job.boards[0].placements[1], PlacementState::Skipped));
    assert_eq!(r.job.stats.skipped, 1);
    assert!(matches!(
        r.step(RunEvent::Control(JobControl::SkipPlacement {
            board_idx: 3,
            placement_idx: 0
        })),
        RunAction::AwaitControl
    ));
    assert_eq!(r.job.stats.skipped, 1);
    assert!(matches!(r.step(RunEvent::Control(JobControl::Pause)), RunAction::AwaitControl));
    assert!(matches!(r.step(RunEvent::Control(JobControl::Resume)), RunAction::Resumed));
    assert!(matches!(r.job.status, JobStatus::Running));
    assert!(matches!(r.step(ok()), RunAction::CheckControl));
    assert!(matches!(r.step(RunEvent::NoControl), RunAction::LocateBoard { .. }));
}

#[test]
fn a_closed_channel_while_paused_ends_the_job() {
    let mut r = runner(2);
    r.step(RunEvent::Begin);
    r.step(RunEvent::Control(JobControl::Pause));
    match r.step(RunEvent::Closed) {
        RunAction::Finish(JobStatus::Error { message }) => {
            assert_eq!(message, "Job control channel closed")
        }
        _ => panic!("expected the job to end"),
    }
}

#[test]
fn a_failed_pick_pauses_and_resumes_with_the_next_assignment() {
    let mut r = runner(0);
    r.step(RunEvent::Begin);
    r.step(RunEvent::NoControl);
    r.step(ok());
    let plan = cycle(vec![
        assignment(NozzleId::N1, "R1", 0),
        assignment(NozzleId::N2, "R2", 1),
    ]);
    r.step(RunEvent::Planned(plan));
    r.step(RunEvent::NoControl);
    match r.step(RunEvent::Failed {
        error: "vacuum".into(),
    }) {
        RunAction::Pause(PauseReason::PickFailed {
            placement,
            attempts,
        }) => {
            assert_eq!(placement, "R1");
            assert_eq!(attempts, 0);
        }
        _ => panic!("expected a pause"),
    }
    assert!(matches!(r.step(RunEvent::Control(JobControl::Resume)), RunAction::Resumed));
    match r.step(ok()) {
        RunAction::Pick(a) => assert_eq!(a.part_id, "R2"),
        _ => panic!("expected the next pick"),
    }
}

#[test]
fn unexpected_events_do_nothing() {
    let mut r = runner(0);
    assert!(matches!(r.step(RunEvent::NoControl), RunAction::Idle));
    assert_eq!(r.phase, Phase::Start);
}

#[test]
fn a_failed_place_is_recorded_and_the_job_completes() {
    let mut r = runner(0);
    assert!(matches!(r.step(RunEvent::Begin), RunAction::CheckControl));
    assert!(matches!(r.step(RunEvent::NoControl), RunAction::UseOrigin { board_idx: 0 }));
    assert!(matches!(r.step(ok()), RunAction::Plan));
    let plan = cycle(vec![
        assignment(NozzleId::N1, "R1", 0),
        assignment(NozzleId::N2, "R2", 1),
    ]);
    assert!(matches!(r.step(RunEvent::Planned(plan)), RunAction::CheckControl));
    assert!(matches!(r.step(RunEvent::NoControl), RunAction::Pick(_)));
    assert!(matches!(r.step(ok()), RunAction::Pick(_)));
    assert!(matches!(r.step(ok()), RunAction::CheckControl));
    assert!(matches!(r.step(RunEvent::NoControl), RunAction::Align(_)));
    assert!(matches!(r.step(RunEvent::Failed { error: "no part".into() }), RunAction::Align(_)));
    assert!(matches!(r.step(ok()), RunAction::CheckControl));
    assert!(matches!(r.step(RunEvent::NoControl), RunAction::Place(_)));
    assert!(matches!(r.step(RunEvent::Failed { error: "dropped".into() }), RunAction::Place(_)));
    assert!(matches!(r.step(ok()), RunAction::Finish(JobStatus::Complete)));
    match &r.job.boards[0].placements[0] {
        PlacementState::Failed { reason } => assert_eq!(reason, "dropped"),
        _ => panic!("placement 0 should have failed"),
    }
    assert!(matches!(r.job.boards[0].placements[1], PlacementState::Placed));
    assert!(matches!(r.job.boards[0].placements[2], PlacementState::Skipped));
    assert_eq!(r.job.stats.completed, 1);
    assert_eq!(r.job.stats.failed, 1);
    assert_eq!(r.job.boards[0].board_idx, 0);
    assert!(matches!(r.phase, Phase::Done));
}

#[test]
fn a_run_with_pauses_skips_and_failures_settles_its_plan_and_counts_it() {
    let mut r = runner(0);
    r.step(RunEvent::Begin);
    r.step(RunEvent::NoControl);
    r.step(ok());
    let plan = cycle(vec![
        assignment(NozzleId::N1, "R1", 0),
        assignment(NozzleId::N2, "R2", 1),
    ]);
    r.step(RunEvent::Planned(plan));
    r.step(RunEvent::NoControl);
    assert!(matches!(r.step(RunEvent::Failed { error: "vacuum".into() }), RunAction::Pause(_)));
    assert!(matches!(r.step(RunEvent::Control(JobControl::Resume)), RunAction::Resumed));
    assert!(matches!(r.step(ok()), RunAction::Pick(_)));
    assert!(matches!(r.step(ok()), RunAction::CheckControl));
    // A skip between steps names a placement that is not placed yet.
    assert!(matches!(
        r.step(RunEvent::Control(JobControl::SkipPlacement { board_idx: 0, placement_idx: 1 })),
        RunAction::CheckControl
    ));
    assert!(matches!(r.step(RunEvent::NoControl), RunAction::Align(_)));
    assert!(matches!(r.step(RunEvent::Failed { error: "no part".into() }), RunAction::Align(_)));
    assert!(matches!(r.step(ok()), RunAction::CheckControl));
    assert!(matches!(r.step(RunEvent::NoControl), RunAction::Place(_)));
    assert!(matches!(r.step(ok()), RunAction::Place(_)));
    assert!(matches!(r.step(RunEvent::Failed { error: "dropped".into() }), RunAction::Finish(JobStatus::Complete)));
    // Both planned placements are settled; the disabled one is as it was.
    assert!(matches!(r.job.boards[0].placements[0], PlacementState::Placed));
    assert!(matches!(r.job.boards[0].placements[1], PlacementState::Failed { .. }));
    assert!(matches!(r.job.boards[0].placements[2], PlacementState::Skipped));
    assert_eq!(r.job.stats.completed, 1);
    assert_eq!(r.job.stats.failed, 1);
    assert_eq!(r.job.stats.skipped, 1);
}
