//! The G-code link to the Marlin controller: reply grammar, errors, and the
//! collection of a command's reply lines.

pub mod parser;
pub mod port;

use vstd::prelude::*;

use crate::gcode::parser::is_error_chars;
use crate::gcode::parser::is_ok_chars;
use crate::gcode::parser::spec_is_error;
use crate::gcode::parser::spec_is_ok;
use crate::text::chars_of;
use crate::text::spec_trim;
use crate::text::string_from_chars;
use crate::text::trim;

verus! {

/// Failures of the G-code link, with the messages of the underlying errors.
#[derive(Debug, Clone)]
pub enum GCodeError {
    Serial(String),
    Io(String),
    Command(String),
    Timeout,
    Parse(String),
}

pub open spec fn spec_gcode_error_text(e: GCodeError) -> Seq<char> {
    match e {
        GCodeError::Serial(m) => "Serial error: "@ + m@,
        GCodeError::Io(m) => "IO error: "@ + m@,
        GCodeError::Command(m) => "Command error: "@ + m@,
        GCodeError::Timeout => "Timeout waiting for response"@,
        GCodeError::Parse(m) => "Parse error: "@ + m@,
    }
}

impl GCodeError {
    /// Human-readable description of the error.
    pub fn describe(&self) -> (s: String)
        ensures
            s@ == spec_gcode_error_text(*self),
    {
        match self {
            GCodeError::Serial(m) => {
                let mut s = "Serial error: ".to_string();
                s.append(m.as_str());
                s
            },
            GCodeError::Io(m) => {
                let mut s = "IO error: ".to_string();
                s.append(m.as_str());
                s
            },
            GCodeError::Command(m) => {
                let mut s = "Command error: ".to_string();
                s.append(m.as_str());
                s
            },
            GCodeError::Timeout => "Timeout waiting for response".to_string(),
            GCodeError::Parse(m) => {
                let mut s = "Parse error: ".to_string();
                s.append(m.as_str());
                s
            },
        }
    }
}

/// What one reply line means for a command in flight.
#[derive(Debug)]
pub enum ReplyStep {
    /// More lines are expected.
    Pending,
    /// The command was acknowledged; the collected reply.
    Complete(String),
    /// The controller reported an error.
    Failed(GCodeError),
}

/// The message for a command that the controller refused.
pub open spec fn failure_message(cmd: Seq<char>, line: Seq<char>) -> Seq<char> {
    "Command '"@ + cmd + "' failed: "@ + line
}

/// The reply lines of one command, trimmed, each followed by a newline.
pub struct ReplyCollector {
    text: Vec<char>,
}

impl View for ReplyCollector {
    type V = Seq<char>;

    closed spec fn view(&self) -> Seq<char> {
        self.text@
    }
}

impl ReplyCollector {
    pub fn new() -> (c: Self)
        ensures
            c@ == Seq::<char>::empty(),
    {
        ReplyCollector { text: Vec::new() }
    }

    /// Takes one raw line read from the controller. An error line fails the
    /// command; any other line is kept (trimmed, with a newline), and an `ok`
    /// line completes the reply.
    pub fn take_line(&mut self, cmd: &str, line: &str) -> (r: ReplyStep)
        ensures
            spec_is_error(spec_trim(line@)) ==> {
                &&& final(self)@ == old(self)@
                &&& r matches ReplyStep::Failed(GCodeError::Command(m))
                &&& m@ == failure_message(cmd@, spec_trim(line@))
            },
            !spec_is_error(spec_trim(line@)) ==> {
                &&& final(self)@ == old(self)@ + spec_trim(line@) + seq!['\n']
                &&& spec_is_ok(spec_trim(line@)) ==> (r matches ReplyStep::Complete(s) && s@
                    == final(self)@)
                &&& !spec_is_ok(spec_trim(line@)) ==> r is Pending
            },
    {
        let raw = chars_of(line);
        let t = trim(&raw);
        if is_error_chars(&t) {
            let mut m = "Command '".to_string();
            m.append(cmd);
            m.append("' failed: ");
            m.append(string_from_chars(t.as_slice()).as_str());
            return ReplyStep::Failed(GCodeError::Command(m));
        }
        let mut i: usize = 0;
        let ghost start = self.text@;
        while i < t.len()
            invariant
                i <= t@.len(),
                start == old(self).text@,
                self.text@ =~= start + t@.subrange(0, i as int),
            decreases t@.len() - i,
        {
            self.text.push(t[i]);
            i += 1;
        }
        assert(t@.subrange(0, t@.len() as int) =~= t@);
        self.text.push('\n');
        if is_ok_chars(&t) {
            ReplyStep::Complete(string_from_chars(self.text.as_slice()))
        } else {
            ReplyStep::Pending
        }
    }
}

} // verus!
