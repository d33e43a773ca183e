//! KiCad footprint position files (`.pos`), in the ASCII and the CSV form.
//!
//! ASCII:
//! ```text
//! ### Footprint Position - ...
//! ## Unit = mm, Angle = deg.
//! # Ref     Val       Package                    PosX       PosY       Rot    Side
//! C1        1uF       C_0603_1608Metric          47.9000    45.6000    0.0    top
//! ```
//! CSV:
//! ```text
//! Ref,Val,Package,PosX,PosY,Rot,Side
//! C1,1uF,C_0603_1608Metric,47.9000,45.6000,0.0,top
//! ```
//! Numbers keep their text; reading them as numbers is left to the caller.

use vstd::prelude::*;

use crate::config::boards::BoardSide;
use crate::import::Coord;
use crate::import::CoordView;
use crate::import::FiducialRow;
use crate::import::FiducialRowView;
use crate::import::ImportError;
use crate::import::ImportResult;
use crate::import::ImportView;
use crate::import::PlacementRow;
use crate::import::PlacementRowView;
use crate::text::chars_of;
use crate::text::contains;
use crate::text::first_in;
use crate::text::lemma_first_in;
use crate::text::lines;
use crate::text::lowercase;
use crate::text::push_decimal;
use crate::text::same;
use crate::text::spec_contains;
use crate::text::spec_decimal;
use crate::text::spec_lines;
use crate::text::spec_lowercase;
use crate::text::spec_split;
use crate::text::spec_starts_with;
use crate::text::spec_trim;
use crate::text::spec_trim_char;
use crate::text::spec_words;
use crate::text::split;
use crate::text::starts_with;
use crate::text::string_from_chars;
use crate::text::trim;
use crate::text::trim_char;
use crate::text::words;

verus! {

// --- Fiducials and board sides ---
pub open spec fn fiducial_word() -> Seq<char> {
    seq!['f', 'i', 'd', 'u', 'c', 'i', 'a', 'l']
}

pub open spec fn fid_underscore() -> Seq<char> {
    seq!['f', 'i', 'd', '_']
}

pub open spec fn fid_word() -> Seq<char> {
    seq!['f', 'i', 'd']
}

/// Fiducial test on lower-cased package and reference texts.
pub open spec fn spec_is_fiducial_lower(package: Seq<char>, reference: Seq<char>) -> bool {
    ||| spec_contains(package, fiducial_word())
    ||| spec_contains(package, fid_underscore())
    ||| package == fid_word()
    ||| spec_starts_with(reference, fid_word())
}

/// A placement is a fiducial by its package name or its reference designator.
pub open spec fn spec_is_fiducial(package: Seq<char>, reference: Seq<char>) -> bool {
    spec_is_fiducial_lower(spec_lowercase(package), spec_lowercase(reference))
}

/// Fiducial test on lower-cased package and reference texts.
pub fn is_fiducial_lower(package: &Vec<char>, reference: &Vec<char>) -> (b: bool)
    ensures
        b == spec_is_fiducial_lower(package@, reference@),
{
    let w1 = vec!['f', 'i', 'd', 'u', 'c', 'i', 'a', 'l'];
    let w2 = vec!['f', 'i', 'd', '_'];
    let w3 = vec!['f', 'i', 'd'];
    assert(w1@ =~= fiducial_word());
    assert(w2@ =~= fid_underscore());
    assert(w3@ =~= fid_word());
    contains(package, &w1) || contains(package, &w2) || same(package, &w3) || starts_with(
        reference,
        &w3,
    )
}

fn is_fiducial_chars(package: &Vec<char>, reference: &Vec<char>) -> (b: bool)
    ensures
        b == spec_is_fiducial(package@, reference@),
{
    is_fiducial_lower(&lowercase(package), &lowercase(reference))
}

/// Check if a placement is a fiducial by package name or reference designator.
pub fn is_fiducial(package: &str, reference: &str) -> (b: bool)
    ensures
        b == spec_is_fiducial(package@, reference@),
{
    is_fiducial_chars(&chars_of(package), &chars_of(reference))
}

/// Board side named by a lower-cased text: `bottom`, `bot` or `b` name the
/// bottom, anything else the top.
pub open spec fn spec_side_lower(s: Seq<char>) -> BoardSide {
    if s == seq!['b', 'o', 't', 't', 'o', 'm'] || s == seq!['b', 'o', 't'] || s == seq!['b'] {
        BoardSide::Bottom
    } else {
        BoardSide::Top
    }
}

pub open spec fn spec_parse_side(s: Seq<char>) -> BoardSide {
    spec_side_lower(spec_lowercase(s))
}

/// Board side named by a lower-cased text.
pub fn side_from_lower(s: &Vec<char>) -> (side: BoardSide)
    ensures
        side == spec_side_lower(s@),
{
    let a = vec!['b', 'o', 't', 't', 'o', 'm'];
    let b = vec!['b', 'o', 't'];
    let c = vec!['b'];
    assert(a@ =~= seq!['b', 'o', 't', 't', 'o', 'm']);
    assert(b@ =~= seq!['b', 'o', 't']);
    assert(c@ =~= seq!['b']);
    if same(s, &a) || same(s, &b) || same(s, &c) {
        BoardSide::Bottom
    } else {
        BoardSide::Top
    }
}

fn parse_side_chars(s: &Vec<char>) -> (side: BoardSide)
    ensures
        side == spec_parse_side(s@),
{
    side_from_lower(&lowercase(s))
}

/// Board side named in a file's side column.
pub fn parse_side(s: &str) -> (side: BoardSide)
    ensures
        side == spec_parse_side(s@),
{
    parse_side_chars(&chars_of(s))
}

/// A field without surrounding whitespace and quotes.
pub open spec fn spec_unquote(s: Seq<char>) -> Seq<char> {
    spec_trim_char(spec_trim(s), '"')
}

/// Remove surrounding whitespace and quotes from a field.
pub fn unquote(s: &str) -> (r: String)
    ensures
        r@ == spec_unquote(s@),
{
    let v = chars_of(s);
    let t = trim(&v);
    let u = trim_char(&t, '"');
    string_from_chars(u.as_slice())
}

/// Split a CSV line at every comma (fields hold no quoted commas).
pub fn split_csv_line(line: &str) -> (r: Vec<String>)
    ensures
        r@.map_values(|f: String| f@) == spec_split(line@, ','),
{
    let v = chars_of(line);
    let parts = split(&v, ',');
    let mut r: Vec<String> = Vec::new();
    let mut i: usize = 0;
    while i < parts.len()
        invariant
            i <= parts@.len(),
            parts.deep_view() == spec_split(line@, ','),
            r@.map_values(|f: String| f@) =~= parts.deep_view().subrange(0, i as int),
        decreases parts@.len() - i,
    {
        assert(parts.deep_view()[i as int] == parts@[i as int]@);
        let st = string_from_chars(parts[i].as_slice());
        let ghost r0 = r@;
        r.push(st);
        assert(r@.map_values(|f: String| f@) =~= r0.map_values(|f: String| f@).push(
            parts.deep_view()[i as int],
        ));
        i += 1;
        assert(r@.map_values(|f: String| f@) =~= parts.deep_view().subrange(0, i as int));
    }
    r
}

// --- Column mapping of the CSV header ---
/// Column of each field that the import reads.
#[derive(Clone, Copy)]
pub struct Columns {
    pub reference: usize,
    pub package: usize,
    pub x: usize,
    pub y: usize,
    pub rotation: usize,
    pub side: usize,
}

pub open spec fn default_columns() -> Columns {
    Columns { reference: 0, package: 2, x: 3, y: 4, rotation: 5, side: 6 }
}

/// The columns after reading header `h` (lower-cased, unquoted) at index `i`.
pub open spec fn apply_header(c: Columns, i: usize, h: Seq<char>) -> Columns {
    if h == seq!['r', 'e', 'f'] {
        Columns { reference: i, ..c }
    } else if h == seq!['p', 'a', 'c', 'k', 'a', 'g', 'e'] || h == seq![
        'f',
        'o',
        'o',
        't',
        'p',
        'r',
        'i',
        'n',
        't',
    ] {
        Columns { package: i, ..c }
    } else if h == seq!['p', 'o', 's', 'x'] || h == seq!['p', 'o', 's', ' ', 'x'] || h == seq!['x'] {
        Columns { x: i, ..c }
    } else if h == seq!['p', 'o', 's', 'y'] || h == seq!['p', 'o', 's', ' ', 'y'] || h == seq!['y'] {
        Columns { y: i, ..c }
    } else if h == seq!['r', 'o', 't'] || h == seq!['r', 'o', 't', 'a', 't', 'i', 'o', 'n'] {
        Columns { rotation: i, ..c }
    } else if h == seq!['s', 'i', 'd', 'e'] {
        Columns { side: i, ..c }
    } else {
        c
    }
}

/// The text a header field is matched as.
pub open spec fn header_key(h: Seq<char>) -> Seq<char> {
    spec_lowercase(spec_trim_char(h, '"'))
}

/// The columns after the first `n` header fields; a later field of the same
/// name wins.
pub open spec fn header_columns(hs: Seq<Seq<char>>, n: int) -> Columns
    decreases n,
{
    if n <= 0 {
        default_columns()
    } else {
        apply_header(header_columns(hs, n - 1), (n - 1) as usize, header_key(hs[n - 1]))
    }
}

fn apply_header_exec(c: Columns, i: usize, h: &Vec<char>) -> (r: Columns)
    ensures
        r == apply_header(c, i, h@),
{
    let w_ref = vec!['r', 'e', 'f'];
    let w_pkg = vec!['p', 'a', 'c', 'k', 'a', 'g', 'e'];
    let w_fp = vec!['f', 'o', 'o', 't', 'p', 'r', 'i', 'n', 't'];
    let w_px = vec!['p', 'o', 's', 'x'];
    let w_psx = vec!['p', 'o', 's', ' ', 'x'];
    let w_x = vec!['x'];
    let w_py = vec!['p', 'o', 's', 'y'];
    let w_psy = vec!['p', 'o', 's', ' ', 'y'];
    let w_y = vec!['y'];
    let w_rot = vec!['r', 'o', 't'];
    let w_rotation = vec!['r', 'o', 't', 'a', 't', 'i', 'o', 'n'];
    let w_side = vec!['s', 'i', 'd', 'e'];
    assert(w_ref@ =~= seq!['r', 'e', 'f']);
    assert(w_pkg@ =~= seq!['p', 'a', 'c', 'k', 'a', 'g', 'e']);
    assert(w_fp@ =~= seq!['f', 'o', 'o', 't', 'p', 'r', 'i', 'n', 't']);
    assert(w_px@ =~= seq!['p', 'o', 's', 'x']);
    assert(w_psx@ =~= seq!['p', 'o', 's', ' ', 'x']);
    assert(w_x@ =~= seq!['x']);
    assert(w_py@ =~= seq!['p', 'o', 's', 'y']);
    assert(w_psy@ =~= seq!['p', 'o', 's', ' ', 'y']);
    assert(w_y@ =~= seq!['y']);
    assert(w_rot@ =~= seq!['r', 'o', 't']);
    assert(w_rotation@ =~= seq!['r', 'o', 't', 'a', 't', 'i', 'o', 'n']);
    assert(w_side@ =~= seq!['s', 'i', 'd', 'e']);
    if same(h, &w_ref) {
        Columns { reference: i, ..c }
    } else if same(h, &w_pkg) || same(h, &w_fp) {
        Columns { package: i, ..c }
    } else if same(h, &w_px) || same(h, &w_psx) || same(h, &w_x) {
        Columns { x: i, ..c }
    } else if same(h, &w_py) || same(h, &w_psy) || same(h, &w_y) {
        Columns { y: i, ..c }
    } else if same(h, &w_rot) || same(h, &w_rotation) {
        Columns { rotation: i, ..c }
    } else if same(h, &w_side) {
        Columns { side: i, ..c }
    } else {
        c
    }
}

pub proof fn lemma_header_columns_bound(hs: Seq<Seq<char>>, n: int)
    requires
        n <= usize::MAX,
    ensures
        max_column(header_columns(hs, n)) <= if n > 7 {
            n - 1
        } else {
            6
        },
    decreases n,
{
    if n > 0 {
        lemma_header_columns_bound(hs, n - 1);
    }
}

/// The columns named by a CSV header row.
fn columns_of_header(headers: &Vec<Vec<char>>) -> (c: Columns)
    ensures
        c == header_columns(headers.deep_view(), headers@.len() as int),
{
    let mut c = Columns { reference: 0, package: 2, x: 3, y: 4, rotation: 5, side: 6 };
    let mut i: usize = 0;
    while i < headers.len()
        invariant
            i <= headers@.len(),
            c == header_columns(headers.deep_view(), i as int),
        decreases headers@.len() - i,
    {
        assert(headers.deep_view()[i as int] == headers@[i as int]@);
        let key = lowercase(&trim_char(&headers[i], '"'));
        c = apply_header_exec(c, i, &key);
        i += 1;
    }
    c
}

// --- Rows ---
/// What one line contributes to an import.
pub enum RowOutcome {
    Skip,
    Warn(Seq<char>),
    Fiducial(FiducialRowView),
    Placement(PlacementRowView),
}

/// How the fields of a data line are found.
#[derive(Clone, Copy)]
pub enum RowFormat {
    Ascii,
    Csv(Columns),
}

pub open spec fn coord(text: Seq<char>, field: Seq<char>) -> CoordView {
    CoordView { text, field }
}

pub open spec fn line_word() -> Seq<char> {
    "Line "@
}

/// `Line <n>: expected 7+ fields, got <k>`.
pub open spec fn ascii_warning(n: nat, k: nat) -> Seq<char> {
    "Line "@ + spec_decimal(n) + ": expected 7+ fields, got "@ + spec_decimal(k)
}

/// `Line <n>: expected <m> fields, got <k>`.
pub open spec fn csv_warning(n: nat, m: nat, k: nat) -> Seq<char> {
    "Line "@ + spec_decimal(n) + ": expected "@ + spec_decimal(m) + " fields, got "@ + spec_decimal(
        k,
    )
}

/// An ASCII data line (at 1-based line `n`) split into whitespace-separated
/// fields: reference, value, package, x, y, rotation, side.
pub open spec fn ascii_fields_outcome(n: nat, f: Seq<Seq<char>>) -> RowOutcome {
    if f.len() < 7 {
        RowOutcome::Warn(ascii_warning(n, f.len()))
    } else if spec_is_fiducial(f[2], f[0]) {
        RowOutcome::Fiducial(
            FiducialRowView {
                line: n,
                reference: f[0],
                x: coord(f[3], f[3]),
                y: coord(f[4], f[4]),
                rotation: coord(f[5], f[5]),
            },
        )
    } else {
        RowOutcome::Placement(
            PlacementRowView {
                line: n,
                reference: f[0],
                part_id: f[2],
                x: coord(f[3], f[3]),
                y: coord(f[4], f[4]),
                rotation: coord(f[5], f[5]),
                side: spec_parse_side(f[6]),
            },
        )
    }
}

pub open spec fn max_column(c: Columns) -> usize {
    let m1 = if c.reference > c.package {
        c.reference
    } else {
        c.package
    };
    let m2 = if m1 > c.x {
        m1
    } else {
        c.x
    };
    let m3 = if m2 > c.y {
        m2
    } else {
        c.y
    };
    let m4 = if m3 > c.rotation {
        m3
    } else {
        c.rotation
    };
    if m4 > c.side {
        m4
    } else {
        c.side
    }
}

/// A CSV data line (at 1-based line `n`) split at commas, read through the
/// header's columns.
pub open spec fn csv_fields_outcome(n: nat, f: Seq<Seq<char>>, c: Columns) -> RowOutcome {
    if f.len() <= max_column(c) {
        RowOutcome::Warn(csv_warning(n, (max_column(c) + 1) as nat, f.len()))
    } else {
        let reference = spec_unquote(f[c.reference as int]);
        let package = spec_unquote(f[c.package as int]);
        let x = coord(spec_unquote(f[c.x as int]), f[c.x as int]);
        let y = coord(spec_unquote(f[c.y as int]), f[c.y as int]);
        let rotation = coord(spec_unquote(f[c.rotation as int]), f[c.rotation as int]);
        if spec_is_fiducial(package, reference) {
            RowOutcome::Fiducial(FiducialRowView { line: n, reference, x, y, rotation })
        } else {
            RowOutcome::Placement(
                PlacementRowView {
                    line: n,
                    reference,
                    part_id: package,
                    x,
                    y,
                    rotation,
                    side: spec_parse_side(spec_unquote(f[c.side as int])),
                },
            )
        }
    }
}

/// A blank line or a comment.
pub open spec fn is_blank_or_comment(line: Seq<char>) -> bool {
    let t = spec_trim(line);
    t.len() == 0 || t[0] == '#'
}

/// What line `idx` (0-based) contributes.
pub open spec fn row_outcome(fmt: RowFormat, idx: int, line: Seq<char>) -> RowOutcome {
    let t = spec_trim(line);
    if is_blank_or_comment(line) {
        RowOutcome::Skip
    } else {
        match fmt {
            RowFormat::Ascii => ascii_fields_outcome((idx + 1) as nat, spec_words(t)),
            RowFormat::Csv(c) => csv_fields_outcome((idx + 1) as nat, spec_split(t, ','), c),
        }
    }
}

pub open spec fn apply_outcome(a: ImportView, o: RowOutcome) -> ImportView {
    match o {
        RowOutcome::Skip => a,
        RowOutcome::Warn(w) => ImportView { warnings: a.warnings.push(w), ..a },
        RowOutcome::Fiducial(f) => ImportView { fiducials: a.fiducials.push(f), ..a },
        RowOutcome::Placement(p) => ImportView { placements: a.placements.push(p), ..a },
    }
}

pub open spec fn empty_import() -> ImportView {
    ImportView { placements: seq![], fiducials: seq![], warnings: seq![] }
}

/// The import of lines `start..end`, in order.
pub open spec fn rows(fmt: RowFormat, ls: Seq<Seq<char>>, start: int, end: int) -> ImportView
    decreases end - start,
{
    if end <= start {
        empty_import()
    } else {
        apply_outcome(rows(fmt, ls, start, end - 1), row_outcome(fmt, end - 1, ls[end - 1]))
    }
}

/// An import with neither placements nor fiducials is an error.
pub open spec fn finish(a: ImportView) -> Result<ImportView, ImportError> {
    if a.placements.len() == 0 && a.fiducials.len() == 0 {
        Err(ImportError::NoData)
    } else {
        Ok(a)
    }
}

pub open spec fn spec_parse_ascii(content: Seq<char>) -> Result<ImportView, ImportError> {
    let ls = spec_lines(content);
    finish(rows(RowFormat::Ascii, ls, 0, ls.len() as int))
}

/// Index of the first line at or after `i` that is neither blank nor a comment.
pub open spec fn first_content(ls: Seq<Seq<char>>, i: int) -> int
    decreases ls.len() - i,
{
    if i < 0 || i >= ls.len() {
        ls.len() as int
    } else if !is_blank_or_comment(ls[i]) {
        i
    } else {
        first_content(ls, i + 1)
    }
}

pub open spec fn spec_parse_csv(content: Seq<char>) -> Result<ImportView, ImportError> {
    let ls = spec_lines(content);
    let h = first_content(ls, 0);
    if h >= ls.len() {
        Err(ImportError::NoData)
    } else {
        let headers = spec_split(spec_trim(ls[h]), ',');
        let cols = header_columns(headers, headers.len() as int);
        finish(rows(RowFormat::Csv(cols), ls, h + 1, ls.len() as int))
    }
}

/// Builds `"Line <n>: "` followed by the rest of a warning.
fn line_prefix(n: usize) -> (r: Vec<char>)
    ensures
        r@ == "Line "@ + spec_decimal(n as nat),
{
    let mut r = chars_of("Line ");
    push_decimal(&mut r, n as u64);
    r
}

fn push_str(out: &mut Vec<char>, s: &str)
    ensures
        final(out)@ == old(out)@ + s@,
{
    let v = chars_of(s);
    let mut i: usize = 0;
    while i < v.len()
        invariant
            i <= v@.len(),
            out@ =~= old(out)@ + v@.subrange(0, i as int),
        decreases v@.len() - i,
    {
        out.push(v[i]);
        i += 1;
    }
    assert(v@.subrange(0, v@.len() as int) =~= v@);
}

fn coord_exec(text: &Vec<char>, field: &Vec<char>) -> (c: Coord)
    ensures
        c@ == coord(text@, field@),
{
    Coord { text: string_from_chars(text.as_slice()), field: string_from_chars(field.as_slice()) }
}

fn unquote_chars(s: &Vec<char>) -> (r: Vec<char>)
    ensures
        r@ == spec_unquote(s@),
{
    trim_char(&trim(s), '"')
}

fn max_column_exec(c: Columns) -> (m: usize)
    ensures
        m == max_column(c),
{
    let m1 = if c.reference > c.package {
        c.reference
    } else {
        c.package
    };
    let m2 = if m1 > c.x {
        m1
    } else {
        c.x
    };
    let m3 = if m2 > c.y {
        m2
    } else {
        c.y
    };
    let m4 = if m3 > c.rotation {
        m3
    } else {
        c.rotation
    };
    if m4 > c.side {
        m4
    } else {
        c.side
    }
}

/// Adds the contribution of line `idx` to `acc`.
fn take_row(fmt: RowFormat, idx: usize, line: &Vec<char>, acc: &mut ImportResult)
    requires
        idx < usize::MAX,
        fmt matches RowFormat::Csv(c) ==> max_column(c) < usize::MAX,
    ensures
        final(acc)@ == apply_outcome(old(acc)@, row_outcome(fmt, idx as int, line@)),
{
    let t = trim(line);
    if t.len() == 0 || t[0] == '#' {
        return ;
    }
    let n = idx + 1;
    match fmt {
        RowFormat::Ascii => {
            let f = words(&t);
            if f.len() < 7 {
                let mut w = line_prefix(n);
                push_str(&mut w, ": expected 7+ fields, got ");
                push_decimal(&mut w, f.len() as u64);
                let ws = string_from_chars(w.as_slice());
                let ghost wv = ws@;
                acc.warnings.push(ws);
                proof {
                    assert(wv =~= ascii_warning(n as nat, f@.len()));
                    assert(acc.warnings@.map_values(|s: String| s@) =~= old(acc)@.warnings.push(
                        wv,
                    ));
                    assert(acc.fiducials@.map_values(|r: FiducialRow| r@) =~= old(
                        acc,
                    )@.fiducials);
                    assert(acc.placements@.map_values(|r: PlacementRow| r@) =~= old(
                        acc,
                    )@.placements);
                }
                return ;
            }
            assert(f.deep_view()[0] == f@[0]@);
            assert(f.deep_view()[2] == f@[2]@);
            assert(f.deep_view()[3] == f@[3]@);
            assert(f.deep_view()[4] == f@[4]@);
            assert(f.deep_view()[5] == f@[5]@);
            assert(f.deep_view()[6] == f@[6]@);
            if is_fiducial_chars(&f[2], &f[0]) {
                let row = FiducialRow {
                    line: n,
                    reference: string_from_chars(f[0].as_slice()),
                    x: coord_exec(&f[3], &f[3]),
                    y: coord_exec(&f[4], &f[4]),
                    rotation: coord_exec(&f[5], &f[5]),
                };
                let ghost rv = row@;
                acc.fiducials.push(row);
                proof {
                    assert(acc.fiducials@.map_values(|r: FiducialRow| r@) =~= old(
                        acc,
                    )@.fiducials.push(rv));
                    assert(acc.placements@.map_values(|r: PlacementRow| r@) =~= old(
                        acc,
                    )@.placements);
                    assert(acc.warnings@.map_values(|s: String| s@) =~= old(acc)@.warnings);
                }
            } else {
                let row = PlacementRow {
                    line: n,
                    reference: string_from_chars(f[0].as_slice()),
                    part_id: string_from_chars(f[2].as_slice()),
                    x: coord_exec(&f[3], &f[3]),
                    y: coord_exec(&f[4], &f[4]),
                    rotation: coord_exec(&f[5], &f[5]),
                    side: parse_side_chars(&f[6]),
                };
                let ghost rv = row@;
                acc.placements.push(row);
                proof {
                    assert(acc.placements@.map_values(|r: PlacementRow| r@) =~= old(
                        acc,
                    )@.placements.push(rv));
                    assert(acc.fiducials@.map_values(|r: FiducialRow| r@) =~= old(
                        acc,
                    )@.fiducials);
                    assert(acc.warnings@.map_values(|s: String| s@) =~= old(acc)@.warnings);
                }
            }
        },
        RowFormat::Csv(c) => {
            let f = split(&t, ',');
            let m = max_column_exec(c);
            if f.len() <= m {
                let mut w = line_prefix(n);
                push_str(&mut w, ": expected ");
                push_decimal(&mut w, (m + 1) as u64);
                push_str(&mut w, " fields, got ");
                push_decimal(&mut w, f.len() as u64);
                let ws = string_from_chars(w.as_slice());
                let ghost wv = ws@;
                acc.warnings.push(ws);
                proof {
                    assert(wv =~= csv_warning(n as nat, (m + 1) as nat, f@.len()));
                    assert(acc.warnings@.map_values(|s: String| s@) =~= old(acc)@.warnings.push(
                        wv,
                    ));
                    assert(acc.fiducials@.map_values(|r: FiducialRow| r@) =~= old(
                        acc,
                    )@.fiducials);
                    assert(acc.placements@.map_values(|r: PlacementRow| r@) =~= old(
                        acc,
                    )@.placements);
                }
                return ;
            }
            let reference = unquote_chars(&f[c.reference]);
            let package = unquote_chars(&f[c.package]);
            let x = coord_exec(&unquote_chars(&f[c.x]), &f[c.x]);
            let y = coord_exec(&unquote_chars(&f[c.y]), &f[c.y]);
            let rotation = coord_exec(&unquote_chars(&f[c.rotation]), &f[c.rotation]);
            assert(f.deep_view()[c.reference as int] == f@[c.reference as int]@);
            assert(f.deep_view()[c.package as int] == f@[c.package as int]@);
            assert(f.deep_view()[c.x as int] == f@[c.x as int]@);
            assert(f.deep_view()[c.y as int] == f@[c.y as int]@);
            assert(f.deep_view()[c.rotation as int] == f@[c.rotation as int]@);
            assert(f.deep_view()[c.side as int] == f@[c.side as int]@);
            if is_fiducial_chars(&package, &reference) {
                let row = FiducialRow {
                    line: n,
                    reference: string_from_chars(reference.as_slice()),
                    x,
                    y,
                    rotation,
                };
                let ghost rv = row@;
                acc.fiducials.push(row);
                proof {
                    assert(acc.fiducials@.map_values(|r: FiducialRow| r@) =~= old(
                        acc,
                    )@.fiducials.push(rv));
                    assert(acc.placements@.map_values(|r: PlacementRow| r@) =~= old(
                        acc,
                    )@.placements);
                    assert(acc.warnings@.map_values(|s: String| s@) =~= old(acc)@.warnings);
                }
            } else {
                let side = parse_side_chars(&unquote_chars(&f[c.side]));
                let row = PlacementRow {
                    line: n,
                    reference: string_from_chars(reference.as_slice()),
                    part_id: string_from_chars(package.as_slice()),
                    x,
                    y,
                    rotation,
                    side,
                };
                let ghost rv = row@;
                acc.placements.push(row);
                proof {
                    assert(acc.placements@.map_values(|r: PlacementRow| r@) =~= old(
                        acc,
                    )@.placements.push(rv));
                    assert(acc.fiducials@.map_values(|r: FiducialRow| r@) =~= old(
                        acc,
                    )@.fiducials);
                    assert(acc.warnings@.map_values(|s: String| s@) =~= old(acc)@.warnings);
                }
            }
        },
    }
}


/// Adds the contributions of lines `start..` to an empty import.
fn take_rows(fmt: RowFormat, ls: &Vec<Vec<char>>, start: usize) -> (acc: ImportResult)
    requires
        start <= ls@.len(),
        fmt matches RowFormat::Csv(c) ==> max_column(c) < usize::MAX,
    ensures
        acc@ == rows(fmt, ls.deep_view(), start as int, ls@.len() as int),
{
    let mut acc = ImportResult { placements: Vec::new(), fiducials: Vec::new(), warnings: Vec::new() };
    assert(acc@.placements =~= Seq::<PlacementRowView>::empty());
    assert(acc@.fiducials =~= Seq::<FiducialRowView>::empty());
    assert(acc@.warnings =~= Seq::<Seq<char>>::empty());
    let mut k = start;
    while k < ls.len()
        invariant
            start <= k <= ls@.len(),
            fmt matches RowFormat::Csv(c) ==> max_column(c) < usize::MAX,
            acc@ == rows(fmt, ls.deep_view(), start as int, k as int),
        decreases ls@.len() - k,
    {
        assert(ls.deep_view()[k as int] == ls@[k as int]@);
        take_row(fmt, k, &ls[k], &mut acc);
        k += 1;
    }
    acc
}

/// Parse KiCad ASCII .pos format.
pub fn parse_ascii(content: &str) -> (r: Result<ImportResult, ImportError>)
    ensures
        match r {
            Ok(a) => spec_parse_ascii(content@) == Ok::<ImportView, ImportError>(a@),
            Err(e) => spec_parse_ascii(content@) == Err::<ImportView, ImportError>(e),
        },
{
    let s = chars_of(content);
    let ls = lines(&s);
    let acc = take_rows(RowFormat::Ascii, &ls, 0);
    if acc.placements.len() == 0 && acc.fiducials.len() == 0 {
        return Err(ImportError::NoData);
    }
    Ok(acc)
}

/// Parse KiCad CSV .pos format: the first line that is neither blank nor a
/// comment is the header, whose names choose the columns.
pub fn parse_csv(content: &str) -> (r: Result<ImportResult, ImportError>)
    ensures
        match r {
            Ok(a) => spec_parse_csv(content@) == Ok::<ImportView, ImportError>(a@),
            Err(e) => spec_parse_csv(content@) == Err::<ImportView, ImportError>(e),
        },
{
    let s = chars_of(content);
    let ls = lines(&s);
    let ghost lv = ls.deep_view();
    let mut h: usize = 0;
    while h < ls.len()
        invariant
            h <= ls@.len(),
            lv == ls.deep_view(),
            lv == spec_lines(content@),
            first_content(lv, 0) == first_content(lv, h as int),
        ensures
            h <= ls@.len(),
            lv == ls.deep_view(),
            lv == spec_lines(content@),
            first_content(lv, 0) == first_content(lv, h as int),
            h < ls@.len() ==> !is_blank_or_comment(lv[h as int]),
        decreases ls@.len() - h,
    {
        let t = trim(&ls[h]);
        assert(lv[h as int] == ls@[h as int]@);
        if !(t.len() == 0 || t[0] == '#') {
            break;
        }
        h += 1;
    }
    if h == ls.len() {
        assert(first_content(lv, 0) == lv.len());
        return Err(ImportError::NoData);
    }
    assert(first_content(lv, 0) == h);
    assert(lv[h as int] == ls@[h as int]@);
    let headers = split(&trim(&ls[h]), ',');
    let cols = columns_of_header(&headers);
    let hn = headers.len();
    proof {
        lemma_header_columns_bound(headers.deep_view(), headers@.len() as int);
    }
    let acc = take_rows(RowFormat::Csv(cols), &ls, h + 1);
    if acc.placements.len() == 0 && acc.fiducials.len() == 0 {
        return Err(ImportError::NoData);
    }
    Ok(acc)
}

} // verus!
