use lnp2::job::planner::{
    plan_job, Distances, FeederRef, PackageRef, PartRef, PlanBoard, PlanConfig, PlanPlacement,
};
use lnp2::job::types::{JobStep, NozzleAssignment, NozzleId, PlacementState};

fn test_config() -> PlanConfig {
    PlanConfig {
        parts: vec![
            PartRef {
                id: "R0805_1K".into(),
                package_id: "R0805".into(),
            },
            PartRef {
                id: "C_0603_100nF".into(),
                package_id: "C_0603".into(),
            },
        ],
        packages: vec![
            PackageRef {
                id: "R0805".into(),
                compatible_tips: vec!["N045".into()],
            },
            PackageRef {
                id: "C_0603".into(),
                compatible_tips: vec!["N045".into()],
            },
        ],
        feeders: vec![
            FeederRef {
                id: "slot_1".into(),
                enabled: true,
                part_id: "R0805_1K".into(),
            },
            FeederRef {
                id: "slot_2".into(),
                enabled: true,
                part_id: "C_0603_100nF".into(),
            },
        ],
        nozzle_tips: vec!["N045".into()],
    }
}

/// Order keys of the distances between the points: for distances, which are
/// never negative, the bits of an `f64` order as the numbers do.
fn distances(points: &[(f64, f64)]) -> Distances {
    let table = points
        .iter()
        .map(|a| {
            points
                .iter()
                .map(|b| ((a.0 - b.0).powi(2) + (a.1 - b.1).powi(2)).sqrt().to_bits())
                .collect()
        })
        .collect();
    Distances { table }
}

fn board(parts: &[&str], enabled: &[bool], states: Vec<PlacementState>) -> PlanBoard {
    PlanBoard {
        board_idx: 0,
        placements: parts
            .iter()
            .zip(enabled)
            .enumerate()
            .map(|(i, (p, e))| PlanPlacement {
                part_id: p.to_string(),
                enabled: *e,
                key: i,
            })
            .collect(),
        states,
    }
}

fn place_batches(steps: &[JobStep]) -> Vec<&Vec<NozzleAssignment>> {
    steps
        .iter()
        .filter_map(|s| match s {
            JobStep::PlaceBatch(a) => Some(a),
            _ => None,
        })
        .collect()
}

#[test]
fn test_plan_basic() {
    let config = test_config();
    let boards = vec![board(
        &["R0805_1K", "C_0603_100nF"],
        &[true, true],
        vec![PlacementState::Pending, PlacementState::Pending],
    )];
    let dist = distances(&[(50.0, 30.0), (55.0, 35.0)]);
    let plan = plan_job(&boards, &config, None, None, &dist);
    assert!(!plan.steps.is_empty());
    let total_assignments: usize = place_batches(&plan.steps).iter().map(|a| a.len()).sum();
    assert_eq!(total_assignments, 2);
}

#[test]
fn test_plan_skips_disabled() {
    let config = test_config();
    let boards = vec![board(&["R0805_1K"], &[false], vec![PlacementState::Pending])];
    let dist = distances(&[(50.0, 30.0)]);
    let plan = plan_job(&boards, &config, None, None, &dist);
    assert!(plan.steps.is_empty());
}

#[test]
fn test_plan_skips_already_placed() {
    let config = test_config();
    let boards = vec![board(&["R0805_1K"], &[true], vec![PlacementState::Placed])];
    let dist = distances(&[(50.0, 30.0)]);
    let plan = plan_job(&boards, &config, None, None, &dist);
    assert!(plan.steps.is_empty());
}

#[test]
fn test_plan_dual_nozzle_pairing() {
    let config = test_config();
    let boards = vec![board(
        &["R0805_1K"; 4],
        &[true; 4],
        vec![
            PlacementState::Pending,
            PlacementState::Pending,
            PlacementState::Pending,
            PlacementState::Pending,
        ],
    )];
    let dist = distances(&[(50.0, 30.0), (52.0, 30.0), (54.0, 30.0), (56.0, 30.0)]);
    let plan = plan_job(&boards, &config, None, None, &dist);
    let place = place_batches(&plan.steps);
    assert_eq!(place.len(), 2);
    assert_eq!(place[0].len(), 2);
    assert_eq!(place[1].len(), 2);
}

// --- Further cases ---

#[test]
fn plan_changes_tips_first_and_pairs_nearest() {
    let config = test_config();
    let boards = vec![board(
        &["R0805_1K"; 3],
        &[true; 3],
        vec![PlacementState::Pending, PlacementState::Pending, PlacementState::Pending],
    )];
    // Placement 2 is nearer to placement 0 than placement 1 is.
    let dist = distances(&[(0.0, 0.0), (10.0, 0.0), (1.0, 0.0)]);
    let plan = plan_job(&boards, &config, None, Some("N045"), &dist);
    match &plan.steps[0] {
        JobStep::ChangeTips(c) => {
            assert_eq!(c.len(), 1);
            assert_eq!(c[0].nozzle, NozzleId::N1);
            assert_eq!(c[0].to_tip, "N045");
            assert!(c[0].from_tip.is_none());
        }
        _ => panic!("expected a tip change first"),
    }
    let place = place_batches(&plan.steps);
    assert_eq!(place.len(), 2);
    assert_eq!(place[0][0].placement_idx, 0);
    assert_eq!(place[0][0].nozzle, NozzleId::N1);
    assert_eq!(place[0][1].placement_idx, 2);
    assert_eq!(place[0][1].nozzle, NozzleId::N2);
    assert_eq!(place[1].len(), 1);
    assert_eq!(place[1][0].placement_idx, 1);
    assert_eq!(place[0][0].feeder_id, "slot_1");
    assert_eq!(place[0][0].tip_id, "N045");
}

#[test]
fn plan_needs_no_tip_change_when_tips_are_on() {
    let config = test_config();
    let boards = vec![board(&["R0805_1K"], &[true], vec![PlacementState::Pending])];
    let dist = distances(&[(0.0, 0.0)]);
    let plan = plan_job(&boards, &config, Some("N045"), Some("N045"), &dist);
    assert_eq!(plan.steps.len(), 3);
    assert!(matches!(plan.steps[0], JobStep::PickBatch(_)));
    assert!(matches!(plan.steps[1], JobStep::AlignBatch(_)));
    assert!(matches!(plan.steps[2], JobStep::PlaceBatch(_)));
}

#[test]
fn plan_skips_parts_without_feeder_or_package() {
    let mut config = test_config();
    config.feeders[0].enabled = false;
    let boards = vec![board(
        &["R0805_1K", "UNKNOWN"],
        &[true, true],
        vec![PlacementState::Pending, PlacementState::Pending],
    )];
    let dist = distances(&[(0.0, 0.0), (1.0, 1.0)]);
    let plan = plan_job(&boards, &config, None, None, &dist);
    assert!(plan.steps.is_empty());
}

#[test]
fn plan_places_each_placement_once_across_tips() {
    let mut config = test_config();
    config.packages[0].compatible_tips = vec!["N045".into(), "N08".into()];
    config.nozzle_tips.push("N08".into());
    let boards = vec![board(
        &["R0805_1K", "C_0603_100nF", "R0805_1K"],
        &[true, true, true],
        vec![PlacementState::Pending, PlacementState::Pending, PlacementState::Pending],
    )];
    let dist = distances(&[(0.0, 0.0), (5.0, 0.0), (9.0, 0.0)]);
    let plan = plan_job(&boards, &config, None, None, &dist);
    let mut placed: Vec<usize> = place_batches(&plan.steps)
        .iter()
        .flat_map(|b| b.iter().map(|a| a.placement_idx))
        .collect();
    placed.sort();
    assert_eq!(placed, vec![0, 1, 2]);
    // Every placement goes with the tip of the largest group, N045.
    for b in place_batches(&plan.steps) {
        for a in b.iter() {
            assert_eq!(a.tip_id, "N045");
        }
    }
}

#[test]
fn plan_is_tip_change_then_pick_align_place_cycles() {
    let config = test_config();
    let boards = vec![board(
        &["R0805_1K"; 3],
        &[true; 3],
        vec![PlacementState::Pending, PlacementState::Pending, PlacementState::Pending],
    )];
    let dist = distances(&[(0.0, 0.0), (10.0, 0.0), (1.0, 0.0)]);
    let plan = plan_job(&boards, &config, Some("N040"), Some("N045"), &dist);
    let steps = &plan.steps;
    assert_eq!(steps.len(), 7);
    match &steps[0] {
        JobStep::ChangeTips(c) => {
            assert_eq!(c.len(), 1);
            assert_eq!(c[0].from_tip.as_deref(), Some("N040"));
            assert_eq!(c[0].to_tip, "N045");
        }
        _ => panic!("expected a tip change first"),
    }
    for cycle in steps[1..].chunks(3) {
        let ids = |a: &Vec<NozzleAssignment>| -> Vec<(usize, String)> {
            a.iter().map(|x| (x.placement_idx, x.tip_id.clone())).collect()
        };
        let (p, a, q) = match (&cycle[0], &cycle[1], &cycle[2]) {
            (JobStep::PickBatch(p), JobStep::AlignBatch(a), JobStep::PlaceBatch(q)) => (p, a, q),
            _ => panic!("expected pick, align, place"),
        };
        assert_eq!(ids(p), ids(a));
        assert_eq!(ids(p), ids(q));
        assert!(p.iter().all(|x| x.tip_id == "N045"));
    }
}
