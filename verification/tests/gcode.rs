use lnp2::gcode::parser::{is_error, is_ok, parse_position, parse_rs485, parse_vacuum};
use lnp2::gcode::port::select_port;
use lnp2::gcode::{GCodeError, ReplyCollector, ReplyStep};

#[test]
fn test_parse_position() {
    let line = "X:100.0000 Y:200.0000 Z:31.5000 A:0.0000 B:0.0000 Count X:8000 Y:16000 Z:2520";
    let pos = parse_position(line).unwrap();
    assert!((pos.x.parse::<f64>().unwrap() - 100.0).abs() < 0.001);
    assert!((pos.y.parse::<f64>().unwrap() - 200.0).abs() < 0.001);
    assert!((pos.z.parse::<f64>().unwrap() - 31.5).abs() < 0.001);
    assert!((pos.a.parse::<f64>().unwrap() - 0.0).abs() < 0.001);
    assert!((pos.b.parse::<f64>().unwrap() - 0.0).abs() < 0.001);
}

#[test]
fn test_is_ok() {
    assert!(is_ok("ok"));
    assert!(is_ok("ok T:20.0"));
    assert!(!is_ok("X:0.0000"));
}

#[test]
fn test_is_error() {
    assert!(is_error("Error: Line 1"));
    assert!(is_error("!! Emergency stop"));
    assert!(!is_error("ok"));
}

#[test]
fn test_parse_rs485() {
    let text = "rs485-reply: 0013000D0A000007800B4248571720343331";
    let hex = parse_rs485(text).unwrap();
    assert_eq!(hex, "0013000D0A000007800B4248571720343331");
}

#[test]
fn test_parse_rs485_with_ok() {
    let text = "rs485-reply: 2B1347010A03\nok";
    assert!(parse_rs485(text).is_some());
}

#[test]
fn test_parse_rs485_no_match() {
    assert!(parse_rs485("ok").is_none());
    assert!(parse_rs485("").is_none());
}

#[test]
fn test_parse_vacuum() {
    let text = "echo: i2c-reply: from:109 bytes:1 data:230";
    assert!((parse_vacuum(text).unwrap().parse::<f64>().unwrap() - 230.0).abs() < 0.001);
}

#[test]
fn parse_rs485_takes_the_first_reply_of_several_lines() {
    let text = "echo: busy\nrs485-reply: 2B1347010A03\nrs485-reply: FFFF\nok";
    assert_eq!(parse_rs485(text).unwrap(), "2B1347010A03");
}

#[test]
fn parse_position_needs_every_axis() {
    assert!(parse_position("X:1.0 Y:2.0 Z:3.0").is_none());
    let p = parse_position("X:-1.5 Y:2 Z:3.25 A:0 B:90").unwrap();
    assert_eq!(p.x, "-1.5");
    assert_eq!(p.b, "90");
}

#[test]
fn parse_vacuum_without_data_is_none() {
    assert!(parse_vacuum("echo: i2c-reply: from:109 bytes:1").is_none());
}

#[test]
fn reply_collector_completes_on_ok() {
    let mut c = ReplyCollector::new();
    assert!(matches!(c.take_line("M114", "X:1 Y:2\r\n"), ReplyStep::Pending));
    match c.take_line("M114", "ok") {
        ReplyStep::Complete(s) => assert_eq!(s, "X:1 Y:2\nok\n"),
        _ => panic!("expected a complete reply"),
    }
}

#[test]
fn reply_collector_fails_on_error_line() {
    let mut c = ReplyCollector::new();
    match c.take_line("G1 X5", "Error: Unknown command") {
        ReplyStep::Failed(GCodeError::Command(m)) => {
            assert_eq!(m, "Command 'G1 X5' failed: Error: Unknown command");
        }
        _ => panic!("expected a failure"),
    }
}

#[test]
fn gcode_error_descriptions() {
    assert_eq!(GCodeError::Timeout.describe(), "Timeout waiting for response");
    assert_eq!(GCodeError::Serial("x".to_string()).describe(), "Serial error: x");
    assert_eq!(GCodeError::Io("y".to_string()).describe(), "IO error: y");
    assert_eq!(GCodeError::Parse("z".to_string()).describe(), "Parse error: z");
    assert_eq!(GCodeError::Command("w".to_string()).describe(), "Command error: w");
}

#[test]
fn serial_port_selection() {
    let entries: Vec<String> = ["/dev/ttyUSB0", "/dev/ttyACM1", "/dev/null", "/dev/ttyACM0"]
        .iter()
        .map(|s| s.to_string())
        .collect();
    assert_eq!(select_port("auto", &entries).unwrap(), "/dev/ttyACM0");
    assert_eq!(select_port("/dev/ttyS0", &entries).unwrap(), "/dev/ttyS0");
    let usb: Vec<String> = vec!["/dev/ttyUSB3".into(), "/dev/ttyUSB10".into()];
    assert_eq!(select_port("auto", &usb).unwrap(), "/dev/ttyUSB10");
    match select_port("auto", &vec!["/dev/null".to_string()]) {
        Err(GCodeError::Command(m)) => {
            assert_eq!(m, "No serial port found (tried /dev/ttyACM*, /dev/ttyUSB*)")
        }
        _ => panic!("expected no port"),
    }
}

#[test]
fn parse_position_takes_unicode_decimal_digits() {
    // U+0661 and U+0662 are ARABIC-INDIC DIGIT ONE and TWO (category Nd).
    let text = "X:\u{661} Y:\u{662} Z:3 A:4 B:5\nX:1 Y:2 Z:3 A:4 B:5";
    let p = parse_position(text).unwrap();
    assert_eq!(p.x, "\u{661}");
    assert_eq!(p.y, "\u{662}");
    assert_eq!(p.z, "3");
    assert!(p.x.parse::<f64>().is_err());
    // A letter is not a digit, so the report there does not match.
    let p = parse_position("X:a Y:1 Z:1 A:1 B:1 X:7 Y:8 Z:9 A:1 B:2").unwrap();
    assert_eq!(p.x, "7");
}
