//! The grammar of Marlin's replies: acknowledgements, errors, RS-485 replies,
//! position reports and I2C sensor readings.

use vstd::prelude::*;

use crate::text::chars_of;
use crate::text::find_from;
use crate::text::first_in;
use crate::text::first_occurrence;
use crate::text::is_hex_digit;
use crate::text::lemma_first_in;
use crate::text::lemma_first_occurrence;
use crate::text::lines;
use crate::text::occurs_at;
use crate::text::scan_to;
use crate::text::slice_of;
use crate::text::spec_is_hex_digit;
use crate::text::spec_lines;
use crate::text::spec_starts_with;
use crate::text::spec_trim;
use crate::text::starts_with;
use crate::text::string_from_chars;
use crate::text::trim;
use crate::text::CharClass;

verus! {

pub open spec fn ok_tag() -> Seq<char> {
    seq!['o', 'k']
}

pub open spec fn error_tag() -> Seq<char> {
    seq!['E', 'r', 'r', 'o', 'r', ':']
}

pub open spec fn alarm_tag() -> Seq<char> {
    seq!['!', '!']
}

pub open spec fn rs485_tag() -> Seq<char> {
    seq!['r', 's', '4', '8', '5', '-', 'r', 'e', 'p', 'l', 'y', ':']
}

pub open spec fn data_tag() -> Seq<char> {
    seq!['d', 'a', 't', 'a', ':']
}

/// A line that acknowledges a command: it starts with `ok`.
pub open spec fn spec_is_ok(line: Seq<char>) -> bool {
    spec_starts_with(line, ok_tag())
}

/// A line that reports a failure: it starts with `Error:` or `!!`.
pub open spec fn spec_is_error(line: Seq<char>) -> bool {
    spec_starts_with(line, error_tag()) || spec_starts_with(line, alarm_tag())
}

pub fn is_ok(line: &str) -> (b: bool)
    ensures
        b == spec_is_ok(line@),
{
    is_ok_chars(&chars_of(line))
}

pub fn is_error(line: &str) -> (b: bool)
    ensures
        b == spec_is_error(line@),
{
    is_error_chars(&chars_of(line))
}

pub fn is_ok_chars(s: &Vec<char>) -> (b: bool)
    ensures
        b == spec_is_ok(s@),
{
    let tag = vec!['o', 'k'];
    assert(tag@ =~= ok_tag());
    starts_with(s, &tag)
}

pub fn is_error_chars(s: &Vec<char>) -> (b: bool)
    ensures
        b == spec_is_error(s@),
{
    let e = vec!['E', 'r', 'r', 'o', 'r', ':'];
    let a = vec!['!', '!'];
    assert(e@ =~= error_tag());
    assert(a@ =~= alarm_tag());
    starts_with(s, &e) || starts_with(s, &a)
}

// --- RS-485 replies: `rs485-reply:`, optional whitespace, then hex digits ---
/// The hex digits of a reply whose tag starts at `i`: after the tag and any
/// whitespace, the longest run of hexadecimal digits, of which there must be one.
pub open spec fn rs485_capture_at(line: Seq<char>, i: int) -> Option<Seq<char>> {
    let k = i + 12;
    let j = k + first_in(line.subrange(k, line.len() as int), CharClass::NotSpace);
    if j < line.len() && spec_is_hex_digit(line[j]) {
        let e = j + first_in(line.subrange(j, line.len() as int), CharClass::NotHexDigit);
        Some(line.subrange(j, e))
    } else {
        None
    }
}

/// The leftmost reply in a line at or after `from`.
pub open spec fn rs485_search(line: Seq<char>, from: int) -> Option<Seq<char>>
    decreases line.len() + 1 - from,
{
    if from < 0 {
        None
    } else {
        match first_occurrence(line, rs485_tag(), from) {
            None => None,
            Some(i) => {
                proof {
                    lemma_first_occurrence(line, rs485_tag(), from);
                }
                match rs485_capture_at(line, i) {
                    Some(c) => Some(c),
                    None => rs485_search(line, i + 1),
                }
            },
        }
    }
}

/// The reply of the first line that holds one.
pub open spec fn rs485_in_lines(ls: Seq<Seq<char>>) -> Option<Seq<char>>
    decreases ls.len(),
{
    if ls.len() == 0 {
        None
    } else {
        match rs485_search(ls[0], 0) {
            Some(c) => Some(c),
            None => rs485_in_lines(ls.drop_first()),
        }
    }
}

pub open spec fn spec_parse_rs485(text: Seq<char>) -> Option<Seq<char>> {
    rs485_in_lines(spec_lines(text))
}

fn rs485_capture_exec(line: &Vec<char>, i: usize) -> (r: Option<Vec<char>>)
    requires
        occurs_at(line@, rs485_tag(), i as int),
    ensures
        match r {
            Some(c) => rs485_capture_at(line@, i as int) == Some(c@),
            None => rs485_capture_at(line@, i as int) is None,
        },
{
    let n = line.len();
    let k = i + 12;
    let j = scan_to(line, k, n, &CharClass::NotSpace);
    if j < n && is_hex_digit(line[j]) {
        let e = scan_to(line, j, n, &CharClass::NotHexDigit);
        Some(slice_of(line, j, e))
    } else {
        None
    }
}

fn rs485_search_exec(line: &Vec<char>) -> (r: Option<Vec<char>>)
    ensures
        match r {
            Some(c) => rs485_search(line@, 0) == Some(c@),
            None => rs485_search(line@, 0) is None,
        },
{
    let tag = vec!['r', 's', '4', '8', '5', '-', 'r', 'e', 'p', 'l', 'y', ':'];
    assert(tag@ =~= rs485_tag());
    let n = line.len();
    let mut from: usize = 0;
    loop
        invariant
            n == line@.len(),
            tag@ == rs485_tag(),
            from <= line@.len() + 1,
            rs485_search(line@, 0) == rs485_search(line@, from as int),
        decreases line@.len() + 1 - from,
    {
        proof {
            lemma_first_occurrence(line@, rs485_tag(), from as int);
        }
        match find_from(line, &tag, from) {
            None => {
                return None;
            },
            Some(i) => {
                match rs485_capture_exec(line, i) {
                    Some(c) => {
                        return Some(c);
                    },
                    None => {
                        from = i + 1;
                    },
                }
            },
        }
    }
}

pub proof fn lemma_rs485_search_hex(line: Seq<char>, from: int)
    ensures
        rs485_search(line, from) matches Some(c) ==> c.len() > 0 && forall|k: int|
            0 <= k < c.len() ==> spec_is_hex_digit(#[trigger] c[k]),
    decreases line.len() + 1 - from,
{
    if from >= 0 {
        lemma_first_occurrence(line, rs485_tag(), from);
        match first_occurrence(line, rs485_tag(), from) {
            None => {},
            Some(i) => {
                let k = i + 12;
                let j = k + first_in(line.subrange(k, line.len() as int), CharClass::NotSpace);
                lemma_first_in(line.subrange(k, line.len() as int), CharClass::NotSpace);
                if j < line.len() && spec_is_hex_digit(line[j]) {
                    let t = line.subrange(j, line.len() as int);
                    lemma_first_in(t, CharClass::NotHexDigit);
                    let e = j + first_in(t, CharClass::NotHexDigit);
                    assert(e > j) by {
                        assert(t[0] == line[j]);
                    }
                    assert forall|q: int| 0 <= q < e - j implies spec_is_hex_digit(
                        #[trigger] line.subrange(j, e)[q],
                    ) by {
                        assert(line.subrange(j, e)[q] == t[q]);
                    }
                } else {
                    lemma_rs485_search_hex(line, i + 1);
                }
            },
        }
    }
}

pub proof fn lemma_rs485_in_lines_hex(ls: Seq<Seq<char>>)
    ensures
        rs485_in_lines(ls) matches Some(c) ==> c.len() > 0 && forall|k: int|
            0 <= k < c.len() ==> spec_is_hex_digit(#[trigger] c[k]),
    decreases ls.len(),
{
    if ls.len() > 0 {
        lemma_rs485_search_hex(ls[0], 0);
        lemma_rs485_in_lines_hex(ls.drop_first());
    }
}

/// Extract the hex payload from an RS-485 reply line.
pub fn parse_rs485(text: &str) -> (r: Option<String>)
    ensures
        match r {
            Some(h) => spec_parse_rs485(text@) == Some(h@),
            None => spec_parse_rs485(text@) is None,
        },
        r matches Some(h) ==> h@.len() > 0 && forall|k: int|
            0 <= k < h@.len() ==> spec_is_hex_digit(#[trigger] h@[k]),
{
    proof {
        lemma_rs485_in_lines_hex(spec_lines(text@));
    }
    let s = chars_of(text);
    let ls = lines(&s);
    let mut k: usize = 0;
    assert(ls.deep_view().subrange(0, ls@.len() as int) =~= ls.deep_view());
    while k < ls.len()
        invariant
            k <= ls@.len(),
            ls.deep_view() == spec_lines(text@),
            rs485_in_lines(spec_lines(text@)) == rs485_in_lines(
                ls.deep_view().subrange(k as int, ls@.len() as int),
            ),
        decreases ls@.len() - k,
    {
        let ghost rest = ls.deep_view().subrange(k as int, ls@.len() as int);
        assert(rest[0] == ls@[k as int]@);
        assert(rest.drop_first() =~= ls.deep_view().subrange(k + 1, ls@.len() as int));
        match rs485_search_exec(&ls[k]) {
            Some(c) => {
                assert(rs485_in_lines(rest) == Some(c@));
                proof {
                    lemma_rs485_in_lines_hex(spec_lines(text@));
                }
                assert(c@.len() > 0 && forall|q: int|
                    0 <= q < c@.len() ==> spec_is_hex_digit(#[trigger] c@[q]));
                let h = string_from_chars(c.as_slice());
                assert(h@ == c@);
                return Some(h);
            },
            None => {},
        }
        k += 1;
    }
    None
}

// --- Position reports: `X:<n> Y:<n> Z:<n> A:<n> B:<n>` ---
/// Whether a character is in the regex class `\d`, Unicode's decimal digits
/// (general category `Nd`), as the `regex` crate decides it.
pub uninterp spec fn spec_is_decimal_digit(c: char) -> bool;

/// Tests a character against the `regex` crate's class `\d`, which its
/// documentation defines as `\p{Nd}`. The contract only names the result:
/// the Unicode table is not restated.
#[verifier::external_body]
fn is_decimal_digit(c: char) -> (b: bool)
    ensures
        b == spec_is_decimal_digit(c),
{
    let mut buf = [0u8; 4];
    let text: &str = c.encode_utf8(&mut buf);
    match regex::Regex::new(r"\A\d\z") {
        Ok(re) => re.is_match(text),
        Err(_) => false,
    }
}

/// End of the run of decimal digits that starts at `k`.
pub open spec fn digit_run_end(s: Seq<char>, k: int) -> int
    decreases s.len() - k,
{
    if k < 0 || k >= s.len() || !spec_is_decimal_digit(s[k]) {
        k
    } else {
        digit_run_end(s, k + 1)
    }
}

proof fn lemma_digit_run_end(s: Seq<char>, k: int)
    requires
        0 <= k <= s.len(),
    ensures
        k <= digit_run_end(s, k) <= s.len(),
        k < s.len() && spec_is_decimal_digit(s[k]) ==> k < digit_run_end(s, k),
    decreases s.len() - k,
{
    if k < s.len() && spec_is_decimal_digit(s[k]) {
        lemma_digit_run_end(s, k + 1);
    }
}

/// End of a number `-?\d+\.?\d*` that starts at `j`, taking the longest
/// such run; `\d` is the Unicode class of decimal digits.
pub open spec fn number_end(s: Seq<char>, j: int) -> Option<int> {
    let k = if j < s.len() && s[j] == '-' {
        j + 1
    } else {
        j
    };
    if 0 <= k < s.len() && spec_is_decimal_digit(s[k]) {
        let d = digit_run_end(s, k);
        if d < s.len() && s[d] == '.' {
            Some(digit_run_end(s, d + 1))
        } else {
            Some(d)
        }
    } else {
        None
    }
}

/// A field `<label>:<number>` at `j`: the number's bounds and the index after
/// the whitespace that follows it.
pub open spec fn field_at(s: Seq<char>, j: int, label: char) -> Option<(int, int, int)> {
    if 0 <= j && j + 2 <= s.len() && s[j] == label && s[j + 1] == ':' {
        match number_end(s, j + 2) {
            Some(e) => Some((j + 2, e, e + first_in(s.subrange(e, s.len() as int), CharClass::NotSpace))),
            None => None,
        }
    } else {
        None
    }
}

/// The five number texts of a position report that starts at `i`.
pub open spec fn position_at(s: Seq<char>, i: int) -> Option<Seq<Seq<char>>> {
    match field_at(s, i, 'X') {
        None => None,
        Some((x0, x1, xn)) => match field_at(s, xn, 'Y') {
            None => None,
            Some((y0, y1, yn)) => match field_at(s, yn, 'Z') {
                None => None,
                Some((z0, z1, zn)) => match field_at(s, zn, 'A') {
                    None => None,
                    Some((a0, a1, an)) => match field_at(s, an, 'B') {
                        None => None,
                        Some((b0, b1, bn)) => Some(
                            seq![
                                s.subrange(x0, x1),
                                s.subrange(y0, y1),
                                s.subrange(z0, z1),
                                s.subrange(a0, a1),
                                s.subrange(b0, b1),
                            ],
                        ),
                    },
                },
            },
        },
    }
}

/// The leftmost position report at or after `from`.
pub open spec fn position_search(s: Seq<char>, from: int) -> Option<Seq<Seq<char>>>
    decreases s.len() + 1 - from,
{
    if from < 0 || from > s.len() {
        None
    } else {
        match position_at(s, from) {
            Some(f) => Some(f),
            None => position_search(s, from + 1),
        }
    }
}

/// Texts of the five axis values of a position report.
pub struct PositionText {
    pub x: String,
    pub y: String,
    pub z: String,
    pub a: String,
    pub b: String,
}

fn digit_run_exec(s: &Vec<char>, k: usize) -> (d: usize)
    requires
        k <= s@.len(),
    ensures
        d == digit_run_end(s@, k as int),
{
    let n = s.len();
    let mut d = k;
    while d < n && is_decimal_digit(s[d])
        invariant
            n == s@.len(),
            k <= d <= n,
            digit_run_end(s@, k as int) == digit_run_end(s@, d as int),
        decreases n - d,
    {
        d += 1;
    }
    d
}

fn number_end_exec(s: &Vec<char>, j: usize) -> (r: Option<usize>)
    requires
        j <= s@.len(),
    ensures
        match r {
            Some(e) => number_end(s@, j as int) == Some(e as int) && j < e <= s@.len(),
            None => number_end(s@, j as int) is None,
        },
{
    let n = s.len();
    let k = if j < n && s[j] == '-' {
        j + 1
    } else {
        j
    };
    if k < n && is_decimal_digit(s[k]) {
        let d = digit_run_exec(s, k);
        proof {
            lemma_digit_run_end(s@, k as int);
        }
        if d < n && s[d] == '.' {
            proof {
                lemma_digit_run_end(s@, d + 1);
            }
            Some(digit_run_exec(s, d + 1))
        } else {
            Some(d)
        }
    } else {
        None
    }
}

fn field_exec(s: &Vec<char>, j: usize, label: char) -> (r: Option<(usize, usize, usize)>)
    ensures
        match r {
            Some((a, e, nx)) => field_at(s@, j as int, label) == Some((a as int, e as int, nx as int))
                && a <= e <= nx <= s@.len(),
            None => field_at(s@, j as int, label) is None,
        },
{
    let n = s.len();
    if j <= n && 2 <= n - j && s[j] == label && s[j + 1] == ':' {
        match number_end_exec(s, j + 2) {
            Some(e) => {
                let nx = scan_to(s, e, n, &CharClass::NotSpace);
                Some((j + 2, e, nx))
            },
            None => None,
        }
    } else {
        None
    }
}

fn position_exec(s: &Vec<char>, i: usize) -> (r: Option<PositionText>)
    ensures
        match r {
            Some(p) => position_at(s@, i as int) == Some(seq![p.x@, p.y@, p.z@, p.a@, p.b@]),
            None => position_at(s@, i as int) is None,
        },
{
    let (x0, x1, xn) = match field_exec(s, i, 'X') {
        Some(f) => f,
        None => return None,
    };
    let (y0, y1, yn) = match field_exec(s, xn, 'Y') {
        Some(f) => f,
        None => return None,
    };
    let (z0, z1, zn) = match field_exec(s, yn, 'Z') {
        Some(f) => f,
        None => return None,
    };
    let (a0, a1, an) = match field_exec(s, zn, 'A') {
        Some(f) => f,
        None => return None,
    };
    let (b0, b1, _bn) = match field_exec(s, an, 'B') {
        Some(f) => f,
        None => return None,
    };
    Some(
        PositionText {
            x: string_from_chars(slice_of(s, x0, x1).as_slice()),
            y: string_from_chars(slice_of(s, y0, y1).as_slice()),
            z: string_from_chars(slice_of(s, z0, z1).as_slice()),
            a: string_from_chars(slice_of(s, a0, a1).as_slice()),
            b: string_from_chars(slice_of(s, b0, b1).as_slice()),
        },
    )
}

/// Finds the leftmost position report `X:.. Y:.. Z:.. A:.. B:..` and returns
/// the text of each value.
pub fn parse_position(text: &str) -> (r: Option<PositionText>)
    ensures
        match r {
            Some(p) => position_search(text@, 0) == Some(seq![p.x@, p.y@, p.z@, p.a@, p.b@]),
            None => position_search(text@, 0) is None,
        },
{
    let s = chars_of(text);
    let n = s.len();
    let mut i: usize = 0;
    while i < n
        invariant
            s@ == text@,
            n == s@.len(),
            i <= n,
            position_search(text@, 0) == position_search(text@, i as int),
        decreases n - i,
    {
        match position_exec(&s, i) {
            Some(p) => {
                return Some(p);
            },
            None => {},
        }
        i += 1;
    }
    assert(position_at(text@, n as int) is None);
    assert(position_search(text@, n + 1) is None);
    None
}

// --- I2C sensor readings: `data:<value>` ---
/// The value text after the first `data:` of a line, when at least one
/// character follows it.
pub open spec fn data_capture(line: Seq<char>) -> Option<Seq<char>> {
    match first_occurrence(line, data_tag(), 0) {
        Some(i) => if i + 5 < line.len() {
            Some(line.subrange(i + 5, line.len() as int))
        } else {
            None
        },
        None => None,
    }
}

/// The trimmed value of the first line that holds a reading.
pub open spec fn data_in_lines(ls: Seq<Seq<char>>) -> Option<Seq<char>>
    decreases ls.len(),
{
    if ls.len() == 0 {
        None
    } else {
        match data_capture(ls[0]) {
            Some(c) => Some(spec_trim(c)),
            None => data_in_lines(ls.drop_first()),
        }
    }
}

pub open spec fn spec_parse_vacuum(text: Seq<char>) -> Option<Seq<char>> {
    data_in_lines(spec_lines(text))
}

/// Finds the first line with a `data:` reading and returns its trimmed value text.
pub fn parse_vacuum(text: &str) -> (r: Option<String>)
    ensures
        match r {
            Some(v) => spec_parse_vacuum(text@) == Some(v@),
            None => spec_parse_vacuum(text@) is None,
        },
{
    let s = chars_of(text);
    let ls = lines(&s);
    let tag = vec!['d', 'a', 't', 'a', ':'];
    assert(tag@ =~= data_tag());
    let mut k: usize = 0;
    assert(ls.deep_view().subrange(0, ls@.len() as int) =~= ls.deep_view());
    while k < ls.len()
        invariant
            k <= ls@.len(),
            tag@ == data_tag(),
            ls.deep_view() == spec_lines(text@),
            data_in_lines(spec_lines(text@)) == data_in_lines(
                ls.deep_view().subrange(k as int, ls@.len() as int),
            ),
        decreases ls@.len() - k,
    {
        let ghost rest = ls.deep_view().subrange(k as int, ls@.len() as int);
        assert(rest[0] == ls@[k as int]@);
        assert(rest.drop_first() =~= ls.deep_view().subrange(k + 1, ls@.len() as int));
        let line = &ls[k];
        proof {
            lemma_first_occurrence(line@, data_tag(), 0);
        }
        match find_from(line, &tag, 0) {
            Some(i) => {
                if line.len() - i > 5 {
                    let cap = slice_of(line, i + 5, line.len());
                    let v = trim(&cap);
                    return Some(string_from_chars(v.as_slice()));
                }
            },
            None => {},
        }
        k += 1;
    }
    None
}

} // verus!
