use lnp2::actuators::{
    blow_sequence, dwell_command, led_off_command, led_on_command, vacuum_read_sequence,
    vacuum_reading, ActuatorError,
};
use lnp2::changer::{
    load_sequence, tip_moves, unload_sequence, ChangerMove, SlotCommands, Speed, TipLookupError,
    TipSlot, Waypoint,
};
use lnp2::gcode::GCodeError;
use lnp2::job::pick::{feed_failed, feed_failed_message, pick_decision, FeedRetry, PickDecision, PickOutcome};
use lnp2::job::types::NozzleId;

fn describe(m: &ChangerMove) -> String {
    match m {
        ChangerMove::SafeZ => "safe".into(),
        ChangerMove::Xy(w) => format!("xy {:?}", w),
        ChangerMove::Z(w) => format!("z {:?}", w),
        ChangerMove::Xyz(w, s) => format!("xyz {:?} {:?}", w, s),
        ChangerMove::Send(c) => format!("send {}", c),
    }
}

#[test]
fn load_sequence_order() {
    let v: Vec<String> = load_sequence(Some("M1"), Some(""), None).iter().map(describe).collect();
    assert_eq!(
        v,
        vec![
            "safe",
            "xy First",
            "z First",
            "send M1",
            "xyz Second OneToTwo",
            "xyz Third TwoToThree",
            "xyz Last ThreeToFour",
            "safe"
        ]
    );
}

#[test]
fn unload_sequence_order() {
    let v: Vec<String> = unload_sequence(Some("M1"), None, Some("M3")).iter().map(describe).collect();
    assert_eq!(
        v,
        vec![
            "safe",
            "xy Last",
            "z Last",
            "xyz Third ThreeToFour",
            "send M3",
            "xyz Second TwoToThree",
            "xyz First OneToTwo",
            "send M1",
            "safe"
        ]
    );
    assert!(matches!(unload_sequence(None, None, None)[3], ChangerMove::Xyz(Waypoint::Third, Speed::ThreeToFour)));
}

#[test]
fn actuator_commands() {
    assert_eq!(dwell_command(100), "G4 P100");
    assert_eq!(led_on_command(1, 2, 3, 255), "M150 P255 R1 U2 B3");
    assert_eq!(led_off_command(), "M150 P0");
    assert_eq!(blow_sequence("M42 P1", "M42 P0", 250), vec!["M42 P1", "G4 P250", "M42 P0"]);
    assert_eq!(
        vacuum_read_sequence("M260 A112 B1 S1", "M261 A109 B1 S1"),
        vec!["M260 A112 B1 S1", "M260 A109 B6 S1", "M261 A109 B1 S1"]
    );
}

#[test]
fn vacuum_readings() {
    assert_eq!(vacuum_reading("echo: i2c-reply: from:109 bytes:1 data:230\nok").unwrap(), "230");
    assert!(matches!(vacuum_reading("ok"), Err(ActuatorError::VacuumParseFailed)));
}

#[test]
fn actuator_error_descriptions() {
    assert_eq!(ActuatorError::unknown_nozzle(NozzleId::N2).describe(), "Unknown nozzle: N2");
    assert_eq!(
        ActuatorError::VacuumParseFailed.describe(),
        "Vacuum read failed: could not parse sensor value"
    );
    assert_eq!(
        ActuatorError::GCode(GCodeError::Timeout).describe(),
        "GCode error: Timeout waiting for response"
    );
}

#[test]
fn feed_retries() {
    assert_eq!(feed_failed(0, 3), FeedRetry::Retry { attempts: 1 });
    assert_eq!(feed_failed(2, 3), FeedRetry::Retry { attempts: 3 });
    assert_eq!(feed_failed(3, 3), FeedRetry::GiveUp { attempts: 4 });
    assert_eq!(feed_failed(0, 0), FeedRetry::GiveUp { attempts: 1 });
    assert_eq!(feed_failed_message(4, "No RS-485 reply in response"), "Feed failed after 4 attempts: No RS-485 reply in response");
}

#[test]
fn pick_retries() {
    assert_eq!(pick_decision(PickOutcome::Picked, 2, 3), PickDecision::Done { retries: 2 });
    assert_eq!(pick_decision(PickOutcome::VacuumCheckFailed, 0, 3), PickDecision::Retry { retries: 1 });
    assert_eq!(pick_decision(PickOutcome::VacuumCheckFailed, 3, 3), PickDecision::Fail);
    assert_eq!(pick_decision(PickOutcome::Failed, 0, 3), PickDecision::Fail);
}

#[test]
fn nozzle_names() {
    assert_eq!(NozzleId::N1.config_key(), "n1");
    assert_eq!(NozzleId::N2.config_key(), "n2");
    assert_eq!(NozzleId::N1.name(), "N1");
}

#[test]
fn config_defaults() {
    assert!(lnp2::config::boards::default_true());
    assert!(lnp2::config::jobs::default_true());
    assert_eq!(lnp2::config::feeders::default_retry_count(), 3);
    assert_eq!(lnp2::config::nozzle_tips::default_dwell(), 200);
    assert_eq!(lnp2::config::boards::BoardSide::default(), lnp2::config::boards::BoardSide::Top);
    assert_eq!(lnp2::vision::default_block_size(), 11);
    assert_eq!(lnp2::vision::default_blur_ksize(), 9);
    assert!(lnp2::vision::default_true());
}

fn slots() -> Vec<TipSlot> {
    vec![
        TipSlot { name: "N040".into(), changer: None },
        TipSlot {
            name: "N045".into(),
            changer: Some(SlotCommands {
                post_step_1: Some("M400".into()),
                post_step_2: None,
                post_step_3: Some(String::new()),
            }),
        },
    ]
}

#[test]
fn tip_moves_reports_lookup_errors() {
    match tip_moves(&slots(), "N999", false) {
        Err(TipLookupError::TipNotFound(n)) => assert_eq!(n, "N999"),
        _ => panic!("expected TipNotFound"),
    }
    match tip_moves(&slots(), "N040", true) {
        Err(TipLookupError::NoChangerConfig(n)) => assert_eq!(n, "N040"),
        _ => panic!("expected NoChangerConfig"),
    }
}

#[test]
fn tip_moves_unloads_in_reverse() {
    let (k, moves) = match tip_moves(&slots(), "N045", false) {
        Ok(r) => r,
        Err(_) => panic!("expected moves"),
    };
    assert_eq!(k, 1);
    let reached: Vec<Waypoint> = moves
        .iter()
        .filter_map(|m| match m {
            ChangerMove::Z(w) | ChangerMove::Xyz(w, _) => Some(*w),
            _ => None,
        })
        .collect();
    assert_eq!(reached, vec![Waypoint::Last, Waypoint::Third, Waypoint::Second, Waypoint::First]);
    let sends: Vec<&String> = moves
        .iter()
        .filter_map(|m| match m {
            ChangerMove::Send(c) => Some(c),
            _ => None,
        })
        .collect();
    assert_eq!(sends, vec!["M400"]);
    let (_, load) = match tip_moves(&slots(), "N045", true) {
        Ok(r) => r,
        Err(_) => panic!("expected moves"),
    };
    assert!(matches!(load[1], ChangerMove::Xy(Waypoint::First)));
}
