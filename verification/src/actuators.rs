//! The commands that drive the vacuum, the blow-off solenoid and the LEDs.

use vstd::prelude::*;

use crate::gcode::GCodeError;
use crate::gcode::parser::parse_vacuum;
use crate::gcode::parser::spec_parse_vacuum;
use crate::gcode::spec_gcode_error_text;
use crate::job::types::NozzleId;
use crate::text::push_decimal;
use crate::text::spec_decimal;
use crate::text::string_from_chars;

verus! {

/// Failures of the actuators.
#[derive(Debug, Clone)]
pub enum ActuatorError {
    GCode(GCodeError),
    UnknownNozzle(String),
    VacuumParseFailed,
}

pub open spec fn spec_actuator_error_text(e: ActuatorError) -> Seq<char> {
    match e {
        ActuatorError::GCode(g) => "GCode error: "@ + spec_gcode_error_text(g),
        ActuatorError::UnknownNozzle(n) => "Unknown nozzle: "@ + n@,
        ActuatorError::VacuumParseFailed => "Vacuum read failed: could not parse sensor value"@,
    }
}

impl ActuatorError {
    /// Human-readable description of the error.
    pub fn describe(&self) -> (s: String)
        ensures
            s@ == spec_actuator_error_text(*self),
    {
        match self {
            ActuatorError::GCode(g) => {
                let mut s = "GCode error: ".to_string();
                let d = g.describe();
                s.append(d.as_str());
                s
            },
            ActuatorError::UnknownNozzle(n) => {
                let mut s = "Unknown nozzle: ".to_string();
                s.append(n.as_str());
                s
            },
            ActuatorError::VacuumParseFailed => "Vacuum read failed: could not parse sensor value".to_string(),
        }
    }

    /// The error for a nozzle that the machine configuration does not list.
    pub fn unknown_nozzle(nozzle: NozzleId) -> (e: ActuatorError)
        ensures
            e matches ActuatorError::UnknownNozzle(n) && n@ == (match nozzle {
                NozzleId::N1 => "N1"@,
                NozzleId::N2 => "N2"@,
            }),
    {
        ActuatorError::UnknownNozzle(nozzle.name().to_string())
    }
}

/// The command that selects the vacuum sensor's register for reading.
pub open spec fn register_select() -> Seq<char> {
    "M260 A109 B6 S1"@
}

/// The command that turns the LEDs off.
pub open spec fn leds_off() -> Seq<char> {
    "M150 P0"@
}

/// `G4 P<ms>`: wait for `ms` milliseconds.
pub open spec fn spec_dwell(ms: nat) -> Seq<char> {
    "G4 P"@ + spec_decimal(ms)
}

/// The command that waits for `ms` milliseconds.
pub fn dwell_command(ms: u32) -> (c: String)
    ensures
        c@ == spec_dwell(ms as nat),
{
    let mut v: Vec<char> = Vec::new();
    v.push('G');
    v.push('4');
    v.push(' ');
    v.push('P');
    push_decimal(&mut v, ms as u64);
    proof {
        reveal_strlit("G4 P");
    }
    assert(v@ =~= spec_dwell(ms as nat));
    string_from_chars(v.as_slice())
}

pub open spec fn spec_led_on(r: u8, g: u8, b: u8, brightness: u8) -> Seq<char> {
    "M150 P"@ + spec_decimal(brightness as nat) + " R"@ + spec_decimal(r as nat) + " U"@
        + spec_decimal(g as nat) + " B"@ + spec_decimal(b as nat)
}

/// The command that lights the LEDs in colour `(r, g, b)` at `brightness`.
pub fn led_on_command(r: u8, g: u8, b: u8, brightness: u8) -> (c: String)
    ensures
        c@ == spec_led_on(r, g, b, brightness),
{
    let mut v: Vec<char> = Vec::new();
    v.push('M');
    v.push('1');
    v.push('5');
    v.push('0');
    v.push(' ');
    v.push('P');
    push_decimal(&mut v, brightness as u64);
    v.push(' ');
    v.push('R');
    push_decimal(&mut v, r as u64);
    v.push(' ');
    v.push('U');
    push_decimal(&mut v, g as u64);
    v.push(' ');
    v.push('B');
    push_decimal(&mut v, b as u64);
    proof {
        reveal_strlit("M150 P");
        reveal_strlit(" R");
        reveal_strlit(" U");
        reveal_strlit(" B");
    }
    assert(v@ =~= spec_led_on(r, g, b, brightness));
    string_from_chars(v.as_slice())
}

/// The command that turns the LEDs off.
pub fn led_off_command() -> (c: String)
    ensures
        c@ == leds_off(),
{
    "M150 P0".to_string()
}

/// The commands of a blow-off pulse: open the solenoid, wait, close it.
pub fn blow_sequence(blow_on: &str, blow_off: &str, duration_ms: u32) -> (v: Vec<String>)
    ensures
        v@.len() == 3,
        v@[0]@ == blow_on@,
        v@[1]@ == spec_dwell(duration_ms as nat),
        v@[2]@ == blow_off@,
{
    let mut v: Vec<String> = Vec::new();
    v.push(blow_on.to_string());
    v.push(dwell_command(duration_ms));
    v.push(blow_off.to_string());
    v
}

/// The commands that read a vacuum sensor: select its channel on the I2C
/// multiplexer, select the register, read.
pub fn vacuum_read_sequence(sensor_mux: &str, sensor_read: &str) -> (v: Vec<String>)
    ensures
        v@.len() == 3,
        v@[0]@ == sensor_mux@,
        v@[1]@ == register_select(),
        v@[2]@ == sensor_read@,
{
    let mut v: Vec<String> = Vec::new();
    v.push(sensor_mux.to_string());
    v.push("M260 A109 B6 S1".to_string());
    v.push(sensor_read.to_string());
    v
}

/// The reading in the reply to a sensor read: the text of its `data:` value,
/// or `VacuumParseFailed` when the reply has none.
pub fn vacuum_reading(response: &str) -> (r: Result<String, ActuatorError>)
    ensures
        match r {
            Ok(v) => spec_parse_vacuum(response@) == Some(v@),
            Err(e) => spec_parse_vacuum(response@) is None && e is VacuumParseFailed,
        },
{
    match parse_vacuum(response) {
        Some(v) => Ok(v),
        None => Err(ActuatorError::VacuumParseFailed),
    }
}

} // verus!
