//! Import of placement files: format detection and the KiCad position formats.

pub mod kicad_laws;
pub mod kicad_pos;
pub mod openpnp;

use vstd::prelude::*;

use crate::import::kicad_pos::spec_parse_ascii;
use crate::import::kicad_pos::spec_parse_csv;
use crate::text::chars_of;
use crate::text::contains;
use crate::text::lines;
use crate::text::spec_contains;
use crate::text::spec_lines;
use crate::text::spec_split;
use crate::text::spec_starts_with;
use crate::text::spec_trim;
use crate::text::split;
use crate::text::starts_with;
use crate::text::trim;

verus! {

/// A placement row read from a file. Coordinates keep their text: `text` is
/// what is read as a number, `field` is the field as written.
pub struct Coord {
    pub text: String,
    pub field: String,
}

pub struct CoordView {
    pub text: Seq<char>,
    pub field: Seq<char>,
}

impl View for Coord {
    type V = CoordView;

    open spec fn view(&self) -> CoordView {
        CoordView { text: self.text@, field: self.field@ }
    }
}

/// A component placement read from a file; `line` counts from 1.
pub struct PlacementRow {
    pub line: usize,
    pub reference: String,
    pub part_id: String,
    pub x: Coord,
    pub y: Coord,
    pub rotation: Coord,
    pub side: crate::config::boards::BoardSide,
}

pub struct PlacementRowView {
    pub line: nat,
    pub reference: Seq<char>,
    pub part_id: Seq<char>,
    pub x: CoordView,
    pub y: CoordView,
    pub rotation: CoordView,
    pub side: crate::config::boards::BoardSide,
}

impl View for PlacementRow {
    type V = PlacementRowView;

    open spec fn view(&self) -> PlacementRowView {
        PlacementRowView {
            line: self.line as nat,
            reference: self.reference@,
            part_id: self.part_id@,
            x: self.x@,
            y: self.y@,
            rotation: self.rotation@,
            side: self.side,
        }
    }
}

/// A fiducial read from a file; `line` counts from 1.
pub struct FiducialRow {
    pub line: usize,
    pub reference: String,
    pub x: Coord,
    pub y: Coord,
    pub rotation: Coord,
}

pub struct FiducialRowView {
    pub line: nat,
    pub reference: Seq<char>,
    pub x: CoordView,
    pub y: CoordView,
    pub rotation: CoordView,
}

impl View for FiducialRow {
    type V = FiducialRowView;

    open spec fn view(&self) -> FiducialRowView {
        FiducialRowView {
            line: self.line as nat,
            reference: self.reference@,
            x: self.x@,
            y: self.y@,
            rotation: self.rotation@,
        }
    }
}

/// Result from importing a placement file.
pub struct ImportResult {
    pub placements: Vec<PlacementRow>,
    pub fiducials: Vec<FiducialRow>,
    pub warnings: Vec<String>,
}

pub struct ImportView {
    pub placements: Seq<PlacementRowView>,
    pub fiducials: Seq<FiducialRowView>,
    pub warnings: Seq<Seq<char>>,
}

impl View for ImportResult {
    type V = ImportView;

    open spec fn view(&self) -> ImportView {
        ImportView {
            placements: self.placements@.map_values(|r: PlacementRow| r@),
            fiducials: self.fiducials@.map_values(|r: FiducialRow| r@),
            warnings: self.warnings@.map_values(|w: String| w@),
        }
    }
}

#[derive(Debug)]
pub enum ImportError {
    Io(String),
    UnknownFormat,
    Parse { line: usize, message: String },
    NoData,
}

#[derive(Debug, PartialEq, Eq, Structural)]
pub enum Format {
    KiCadAscii,
    KiCadCsv,
    Unknown,
}

pub open spec fn ascii_header_tag() -> Seq<char> {
    seq![
        '#',
        '#',
        '#',
        ' ',
        'F',
        'o',
        'o',
        't',
        'p',
        'r',
        'i',
        'n',
        't',
        ' ',
        'P',
        'o',
        's',
        'i',
        't',
        'i',
        'o',
        'n',
    ]
}

pub open spec fn unit_tag() -> Seq<char> {
    seq!['#', '#', ' ', 'U', 'n', 'i', 't']
}

pub open spec fn csv_ref_tag() -> Seq<char> {
    seq!['R', 'e', 'f', ',']
}

pub open spec fn csv_quoted_ref_tag() -> Seq<char> {
    seq!['"', 'R', 'e', 'f', '"', ',']
}

/// A line that marks a format: KiCad ASCII by its header comments, KiCad CSV
/// by its header row.
pub open spec fn line_marker(t: Seq<char>) -> Option<Format> {
    if spec_starts_with(t, ascii_header_tag()) || spec_starts_with(t, unit_tag()) {
        Some(Format::KiCadAscii)
    } else if spec_starts_with(t, csv_ref_tag()) || spec_starts_with(t, csv_quoted_ref_tag()) {
        Some(Format::KiCadCsv)
    } else {
        None
    }
}

/// The first marker among the (trimmed) lines.
pub open spec fn first_marker(ls: Seq<Seq<char>>) -> Option<Format>
    decreases ls.len(),
{
    if ls.len() == 0 {
        None
    } else {
        match line_marker(spec_trim(ls[0])) {
            Some(f) => Some(f),
            None => first_marker(ls.drop_first()),
        }
    }
}

/// A data line with at least six comma-separated fields.
pub open spec fn looks_like_csv(t: Seq<char>) -> bool {
    &&& !(t.len() > 0 && t[0] == '#')
    &&& t.len() > 0
    &&& spec_contains(t, seq![','])
    &&& spec_split(t, ',').len() >= 6
}

/// At most the first ten lines.
pub open spec fn head_lines(all: Seq<Seq<char>>) -> Seq<Seq<char>> {
    if all.len() > 10 {
        all.subrange(0, 10)
    } else {
        all
    }
}

/// Some (trimmed) line looks like a CSV data row.
pub open spec fn any_csv_line(ls: Seq<Seq<char>>) -> bool {
    exists|i: int| 0 <= i < ls.len() && looks_like_csv(spec_trim(#[trigger] ls[i]))
}

/// The format of a placement file, judged from its first ten lines.
pub open spec fn spec_detect_format(content: Seq<char>) -> Format {
    let ls = head_lines(spec_lines(content));
    match first_marker(ls) {
        Some(f) => f,
        None => if any_csv_line(ls) {
            Format::KiCadCsv
        } else {
            Format::Unknown
        },
    }
}

/// Detect the format of a placement file from its first lines.
pub fn detect_format(content: &str) -> (f: Format)
    ensures
        f == spec_detect_format(content@),
{
    let s = chars_of(content);
    let all = lines(&s);
    let n = if all.len() > 10 {
        10
    } else {
        all.len()
    };
    let ghost ls = head_lines(all.deep_view());
    assert(ls.len() == n);
    assert forall|i: int| 0 <= i < n implies ls[i] == #[trigger] all@[i]@ by {}
    let t1 = vec![
        '#',
        '#',
        '#',
        ' ',
        'F',
        'o',
        'o',
        't',
        'p',
        'r',
        'i',
        'n',
        't',
        ' ',
        'P',
        'o',
        's',
        'i',
        't',
        'i',
        'o',
        'n',
    ];
    let t2 = vec!['#', '#', ' ', 'U', 'n', 'i', 't'];
    let t3 = vec!['R', 'e', 'f', ','];
    let t4 = vec!['"', 'R', 'e', 'f', '"', ','];
    assert(t1@ =~= ascii_header_tag());
    assert(t2@ =~= unit_tag());
    assert(t3@ =~= csv_ref_tag());
    assert(t4@ =~= csv_quoted_ref_tag());
    let mut k: usize = 0;
    assert(ls.subrange(0, n as int) =~= ls);
    while k < n
        invariant
            k <= n == ls.len(),
            n <= all@.len(),
            all.deep_view() == spec_lines(content@),
            ls == head_lines(all.deep_view()),
            forall|i: int| 0 <= i < n ==> ls[i] == #[trigger] all@[i]@,
            t1@ == ascii_header_tag(),
            t2@ == unit_tag(),
            t3@ == csv_ref_tag(),
            t4@ == csv_quoted_ref_tag(),
            first_marker(ls) == first_marker(ls.subrange(k as int, n as int)),
        decreases n - k,
    {
        let t = trim(&all[k]);
        let ghost rest = ls.subrange(k as int, n as int);
        assert(rest[0] == all@[k as int]@);
        assert(rest.drop_first() =~= ls.subrange(k + 1, n as int));
        if starts_with(&t, &t1) || starts_with(&t, &t2) {
            return Format::KiCadAscii;
        }
        if starts_with(&t, &t3) || starts_with(&t, &t4) {
            return Format::KiCadCsv;
        }
        k += 1;
    }
    assert(first_marker(ls) is None);
    let comma = vec![','];
    assert(comma@ =~= seq![',']);
    let mut j: usize = 0;
    while j < n
        invariant
            j <= n == ls.len(),
            n <= all@.len(),
            first_marker(ls) is None,
            all.deep_view() == spec_lines(content@),
            ls == head_lines(all.deep_view()),
            forall|i: int| 0 <= i < n ==> ls[i] == #[trigger] all@[i]@,
            comma@ == seq![','],
            forall|i: int| 0 <= i < j ==> !looks_like_csv(spec_trim(#[trigger] ls[i])),
        decreases n - j,
    {
        let t = trim(&all[j]);
        let skip = t.len() == 0 || t[0] == '#';
        if !skip && contains(&t, &comma) && split(&t, ',').len() >= 6 {
            assert(looks_like_csv(spec_trim(ls[j as int])));
            assert(any_csv_line(ls));
            return Format::KiCadCsv;
        }
        j += 1;
    }
    assert(!any_csv_line(ls));
    Format::Unknown
}


/// What importing placement text gives: the parser that its format calls for,
/// or `UnknownFormat`.
pub open spec fn spec_import_text(content: Seq<char>) -> Result<ImportView, ImportError> {
    match spec_detect_format(content) {
        Format::KiCadAscii => spec_parse_ascii(content),
        Format::KiCadCsv => spec_parse_csv(content),
        Format::Unknown => Err(ImportError::UnknownFormat),
    }
}

/// Import the text of a placement file (KiCad .pos format, ASCII or CSV).
pub fn import_placement_text(content: &str) -> (r: Result<ImportResult, ImportError>)
    ensures
        match r {
            Ok(a) => spec_import_text(content@) == Ok::<ImportView, ImportError>(a@),
            Err(e) => spec_import_text(content@) == Err::<ImportView, ImportError>(e),
        },
{
    match detect_format(content) {
        Format::KiCadAscii => crate::import::kicad_pos::parse_ascii(content),
        Format::KiCadCsv => crate::import::kicad_pos::parse_csv(content),
        Format::Unknown => Err(ImportError::UnknownFormat),
    }
}

} // verus!
