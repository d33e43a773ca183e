//! What the KiCad importers make of each data row, stated over the file's
//! lines and fields: a row that is not a fiducial becomes a placement whose
//! reference, part, coordinates, rotation and side are the row's fields in
//! their columns.

use vstd::prelude::*;

use crate::import::ImportError;
use crate::import::ImportView;
use crate::import::kicad_pos::RowFormat;
use crate::import::kicad_pos::RowOutcome;
use crate::import::kicad_pos::apply_outcome;
use crate::import::kicad_pos::first_content;
use crate::import::kicad_pos::header_columns;
use crate::import::kicad_pos::header_key;
use crate::import::kicad_pos::max_column;
use crate::import::kicad_pos::row_outcome;
use crate::import::kicad_pos::rows;
use crate::import::kicad_pos::spec_is_fiducial;
use crate::import::kicad_pos::spec_parse_ascii;
use crate::import::kicad_pos::spec_parse_csv;
use crate::import::kicad_pos::spec_parse_side;
use crate::import::kicad_pos::spec_unquote;
use crate::import::FiducialRowView;
use crate::import::PlacementRowView;
use crate::text::spec_lines;
use crate::text::spec_split;
use crate::text::spec_trim;
use crate::text::spec_words;

verus! {

/// A line that holds data: after trimming it is neither empty nor a comment.
pub open spec fn data_line(line: Seq<char>) -> bool {
    spec_trim(line).len() > 0 && spec_trim(line)[0] != '#'
}

/// What line `j` yields as a placement shows up among the placements of the
/// lines `s..n`, and placements only accumulate.
proof fn lemma_rows_keep(fmt: RowFormat, ls: Seq<Seq<char>>, s: int, n: int, j: int, p: PlacementRowView)
    requires
        s <= j < n,
        row_outcome(fmt, j, ls[j]) == RowOutcome::Placement(p),
    ensures
        exists|i: int| 0 <= i < rows(fmt, ls, s, n).placements.len() && rows(fmt, ls, s, n).placements[i] == p,
    decreases n - s,
{
    let prev = rows(fmt, ls, s, n - 1);
    let cur = rows(fmt, ls, s, n);
    assert(cur == apply_outcome(prev, row_outcome(fmt, n - 1, ls[n - 1])));
    if j == n - 1 {
        assert(cur.placements == prev.placements.push(p));
        assert(cur.placements[prev.placements.len() as int] == p);
    } else {
        lemma_rows_keep(fmt, ls, s, n - 1, j, p);
        let i = choose|i: int| 0 <= i < prev.placements.len() && prev.placements[i] == p;
        assert(cur.placements.len() >= prev.placements.len());
        assert(cur.placements[i] == prev.placements[i]);
    }
}

/// What line `j` yields as a fiducial shows up among the fiducials of the
/// lines `s..n`.
proof fn lemma_rows_keep_fiducial(fmt: RowFormat, ls: Seq<Seq<char>>, s: int, n: int, j: int, p: FiducialRowView)
    requires
        s <= j < n,
        row_outcome(fmt, j, ls[j]) == RowOutcome::Fiducial(p),
    ensures
        exists|i: int| 0 <= i < rows(fmt, ls, s, n).fiducials.len() && rows(fmt, ls, s, n).fiducials[i] == p,
    decreases n - s,
{
    let prev = rows(fmt, ls, s, n - 1);
    let cur = rows(fmt, ls, s, n);
    assert(cur == apply_outcome(prev, row_outcome(fmt, n - 1, ls[n - 1])));
    if j == n - 1 {
        assert(cur.fiducials == prev.fiducials.push(p));
        assert(cur.fiducials[prev.fiducials.len() as int] == p);
    } else {
        lemma_rows_keep_fiducial(fmt, ls, s, n - 1, j, p);
        let i = choose|i: int| 0 <= i < prev.fiducials.len() && prev.fiducials[i] == p;
        assert(cur.fiducials.len() >= prev.fiducials.len());
        assert(cur.fiducials[i] == prev.fiducials[i]);
    }
}

/// A data row of a KiCad ASCII file with at least seven whitespace-separated
/// fields whose package (third field) or reference (first field) names a
/// fiducial becomes a fiducial with the row's line number, reference, x
/// (fourth field), y (fifth field) and rotation (sixth field). The import
/// then succeeds.
pub proof fn lemma_ascii_row_fiducial(content: Seq<char>, j: int)
    requires
        0 <= j < spec_lines(content).len(),
        data_line(spec_lines(content)[j]),
        spec_words(spec_trim(spec_lines(content)[j])).len() >= 7,
        spec_is_fiducial(
            spec_words(spec_trim(spec_lines(content)[j]))[2],
            spec_words(spec_trim(spec_lines(content)[j]))[0],
        ),
    ensures
        spec_parse_ascii(content) is Ok,
        ({
            let a = spec_parse_ascii(content)->Ok_0;
            let f = spec_words(spec_trim(spec_lines(content)[j]));
            exists|i: int|
                0 <= i < a.fiducials.len() && #[trigger] a.fiducials[i].line == j + 1
                    && a.fiducials[i].reference == f[0] && a.fiducials[i].x.text == f[3]
                    && a.fiducials[i].y.text == f[4] && a.fiducials[i].rotation.text == f[5]
        }),
{
    let ls = spec_lines(content);
    let o = row_outcome(RowFormat::Ascii, j, ls[j]);
    assert(o is Fiducial);
    let p = o->Fiducial_0;
    lemma_rows_keep_fiducial(RowFormat::Ascii, ls, 0, ls.len() as int, j, p);
    let a = rows(RowFormat::Ascii, ls, 0, ls.len() as int);
    let i = choose|i: int| 0 <= i < a.fiducials.len() && a.fiducials[i] == p;
    assert(spec_parse_ascii(content) == Ok::<ImportView, ImportError>(a));
    let f = spec_words(spec_trim(ls[j]));
    assert(a.fiducials[i].line == j + 1 && a.fiducials[i].reference == f[0]
        && a.fiducials[i].x.text == f[3] && a.fiducials[i].y.text == f[4]
        && a.fiducials[i].rotation.text == f[5]);
    assert(spec_parse_ascii(content)->Ok_0.fiducials[i].line == j + 1);
}

/// A data row of a KiCad ASCII file with at least seven whitespace-separated
/// fields whose package (third field) and reference (first field) do not
/// name a fiducial becomes a placement: its line number, reference, part
/// (the package field), x (fourth field), y (fifth field), rotation (sixth
/// field) and side (seventh field) are the row's. The import then succeeds.
pub proof fn lemma_ascii_row_placement(content: Seq<char>, j: int)
    requires
        0 <= j < spec_lines(content).len(),
        data_line(spec_lines(content)[j]),
        spec_words(spec_trim(spec_lines(content)[j])).len() >= 7,
        !spec_is_fiducial(
            spec_words(spec_trim(spec_lines(content)[j]))[2],
            spec_words(spec_trim(spec_lines(content)[j]))[0],
        ),
    ensures
        spec_parse_ascii(content) is Ok,
        ({
            let a = spec_parse_ascii(content)->Ok_0;
            let f = spec_words(spec_trim(spec_lines(content)[j]));
            exists|i: int|
                0 <= i < a.placements.len() && #[trigger] a.placements[i].line == j + 1
                    && a.placements[i].reference == f[0] && a.placements[i].part_id == f[2]
                    && a.placements[i].x.text == f[3] && a.placements[i].y.text == f[4]
                    && a.placements[i].rotation.text == f[5] && a.placements[i].side
                    == spec_parse_side(f[6]) && a.placements[i].x.field == f[3]
                    && a.placements[i].y.field == f[4] && a.placements[i].rotation.field == f[5]
        }),
{
    let ls = spec_lines(content);
    let o = row_outcome(RowFormat::Ascii, j, ls[j]);
    let p = o->Placement_0;
    assert(o is Placement);
    lemma_rows_keep(RowFormat::Ascii, ls, 0, ls.len() as int, j, p);
    let a = rows(RowFormat::Ascii, ls, 0, ls.len() as int);
    let i = choose|i: int| 0 <= i < a.placements.len() && a.placements[i] == p;
    assert(spec_parse_ascii(content) == Ok::<ImportView, ImportError>(a));
    let f = spec_words(spec_trim(ls[j]));
    assert(a.placements[i].line == j + 1 && a.placements[i].reference == f[0]
        && a.placements[i].part_id == f[2] && a.placements[i].x.text == f[3]
        && a.placements[i].y.text == f[4] && a.placements[i].rotation.text == f[5]
        && a.placements[i].side == spec_parse_side(f[6]) && a.placements[i].x.field == f[3]
        && a.placements[i].y.field == f[4] && a.placements[i].rotation.field == f[5]);
    assert(spec_parse_ascii(content)->Ok_0.placements[i].line == j + 1);
}

proof fn lemma_first_content_at(ls: Seq<Seq<char>>, k: int, h: int)
    requires
        0 <= k <= h < ls.len(),
        data_line(ls[h]),
        forall|q: int| k <= q < h ==> !data_line(#[trigger] ls[q]),
    ensures
        first_content(ls, k) == h,
    decreases h - k,
{
    if k < h {
        lemma_first_content_at(ls, k + 1, h);
    }
}

/// A data row of a KiCad CSV file, after its header (the first data line),
/// that has a field for every column the header names and whose package and
/// reference do not name a fiducial becomes a placement: its line number,
/// and its reference, part, x, y and rotation are the fields in the header's
/// columns with surrounding whitespace and double quotes removed (the part
/// being the package field, the same text the fiducial test reads); its side
/// is read from the side column. The import then succeeds.
pub proof fn lemma_csv_row_placement(content: Seq<char>, h: int, j: int)
    requires
        0 <= h < j < spec_lines(content).len(),
        forall|q: int| 0 <= q < h ==> !data_line(#[trigger] spec_lines(content)[q]),
        data_line(spec_lines(content)[h]),
        data_line(spec_lines(content)[j]),
        ({
            let hs = spec_split(spec_trim(spec_lines(content)[h]), ',');
            let c = header_columns(hs, hs.len() as int);
            let f = spec_split(spec_trim(spec_lines(content)[j]), ',');
            f.len() > max_column(c) && !spec_is_fiducial(
                spec_unquote(f[c.package as int]),
                spec_unquote(f[c.reference as int]),
            )
        }),
    ensures
        spec_parse_csv(content) is Ok,
        ({
            let a = spec_parse_csv(content)->Ok_0;
            let hs = spec_split(spec_trim(spec_lines(content)[h]), ',');
            let c = header_columns(hs, hs.len() as int);
            let f = spec_split(spec_trim(spec_lines(content)[j]), ',');
            exists|i: int|
                0 <= i < a.placements.len() && #[trigger] a.placements[i].line == j + 1
                    && a.placements[i].reference == spec_unquote(f[c.reference as int])
                    && a.placements[i].part_id == spec_unquote(f[c.package as int])
                    && a.placements[i].x.text == spec_unquote(f[c.x as int])
                    && a.placements[i].y.text == spec_unquote(f[c.y as int])
                    && a.placements[i].rotation.text == spec_unquote(f[c.rotation as int])
                    && a.placements[i].side == spec_parse_side(spec_unquote(f[c.side as int]))
                    && a.placements[i].x.field == f[c.x as int] && a.placements[i].y.field == f[c.y as int]
                    && a.placements[i].rotation.field == f[c.rotation as int]
        }),
{
    let ls = spec_lines(content);
    lemma_first_content_at(ls, 0, h);
    let hs = spec_split(spec_trim(ls[h]), ',');
    let c = header_columns(hs, hs.len() as int);
    let fmt = RowFormat::Csv(c);
    let o = row_outcome(fmt, j, ls[j]);
    assert(o is Placement);
    let p = o->Placement_0;
    lemma_rows_keep(fmt, ls, h + 1, ls.len() as int, j, p);
    let a = rows(fmt, ls, h + 1, ls.len() as int);
    let i = choose|i: int| 0 <= i < a.placements.len() && a.placements[i] == p;
    assert(spec_parse_csv(content) == Ok::<ImportView, ImportError>(a));
    let f = spec_split(spec_trim(ls[j]), ',');
    assert(a.placements[i].line == j + 1 && a.placements[i].reference == spec_unquote(
        f[c.reference as int],
    ) && a.placements[i].part_id == spec_unquote(f[c.package as int]) && a.placements[i].x.text
        == spec_unquote(f[c.x as int]) && a.placements[i].y.text == spec_unquote(f[c.y as int])
        && a.placements[i].rotation.text == spec_unquote(f[c.rotation as int])
        && a.placements[i].side == spec_parse_side(spec_unquote(f[c.side as int]))
        && a.placements[i].x.field == f[c.x as int] && a.placements[i].y.field == f[c.y as int]
        && a.placements[i].rotation.field == f[c.rotation as int]);
    assert(spec_parse_csv(content)->Ok_0.placements[i].line == j + 1);
}

/// A data row of a KiCad CSV file, after its header, that has a field for
/// every column the header names and whose package or reference (unquoted)
/// names a fiducial becomes a fiducial whose reference, x, y and rotation are
/// the fields in the header's columns with surrounding whitespace and double
/// quotes removed. The import then succeeds.
pub proof fn lemma_csv_row_fiducial(content: Seq<char>, h: int, j: int)
    requires
        0 <= h < j < spec_lines(content).len(),
        forall|q: int| 0 <= q < h ==> !data_line(#[trigger] spec_lines(content)[q]),
        data_line(spec_lines(content)[h]),
        data_line(spec_lines(content)[j]),
        ({
            let hs = spec_split(spec_trim(spec_lines(content)[h]), ',');
            let c = header_columns(hs, hs.len() as int);
            let f = spec_split(spec_trim(spec_lines(content)[j]), ',');
            f.len() > max_column(c) && spec_is_fiducial(
                spec_unquote(f[c.package as int]),
                spec_unquote(f[c.reference as int]),
            )
        }),
    ensures
        spec_parse_csv(content) is Ok,
        ({
            let a = spec_parse_csv(content)->Ok_0;
            let hs = spec_split(spec_trim(spec_lines(content)[h]), ',');
            let c = header_columns(hs, hs.len() as int);
            let f = spec_split(spec_trim(spec_lines(content)[j]), ',');
            exists|i: int|
                0 <= i < a.fiducials.len() && #[trigger] a.fiducials[i].line == j + 1
                    && a.fiducials[i].reference == spec_unquote(f[c.reference as int])
                    && a.fiducials[i].x.text == spec_unquote(f[c.x as int])
                    && a.fiducials[i].y.text == spec_unquote(f[c.y as int])
                    && a.fiducials[i].rotation.text == spec_unquote(f[c.rotation as int])
        }),
{
    let ls = spec_lines(content);
    lemma_first_content_at(ls, 0, h);
    let hs = spec_split(spec_trim(ls[h]), ',');
    let c = header_columns(hs, hs.len() as int);
    let fmt = RowFormat::Csv(c);
    let o = row_outcome(fmt, j, ls[j]);
    assert(o is Fiducial);
    let p = o->Fiducial_0;
    lemma_rows_keep_fiducial(fmt, ls, h + 1, ls.len() as int, j, p);
    let a = rows(fmt, ls, h + 1, ls.len() as int);
    let i = choose|i: int| 0 <= i < a.fiducials.len() && a.fiducials[i] == p;
    assert(spec_parse_csv(content) == Ok::<ImportView, ImportError>(a));
    let f = spec_split(spec_trim(ls[j]), ',');
    assert(a.fiducials[i].line == j + 1 && a.fiducials[i].reference == spec_unquote(
        f[c.reference as int],
    ) && a.fiducials[i].x.text == spec_unquote(f[c.x as int]) && a.fiducials[i].y.text
        == spec_unquote(f[c.y as int]) && a.fiducials[i].rotation.text == spec_unquote(
        f[c.rotation as int],
    ));
    assert(spec_parse_csv(content)->Ok_0.fiducials[i].line == j + 1);
}


// --- Which column each field is read from ---

/// A header name (lower-cased, without quotes) that names the reference column.
pub open spec fn names_reference(h: Seq<char>) -> bool {
    h == seq!['r', 'e', 'f']
}

/// The reference column is the last header field (among the first `n`) that
/// names it, or column 0 when none does.
pub proof fn lemma_header_reference(hs: Seq<Seq<char>>, n: int)
    requires
        0 <= n <= hs.len(),
        n <= usize::MAX,
    ensures
        (forall|q: int| 0 <= q < n ==> !names_reference(#[trigger] header_key(hs[q]))) ==> header_columns(hs, n).reference == 0,
        forall|k: int|
            0 <= k < n && names_reference(header_key(hs[k])) && (forall|q: int| k < q < n ==> !names_reference(#[trigger] header_key(hs[q])))
                ==> header_columns(hs, n).reference == k,
    decreases n,
{
    if n > 0 {
        lemma_header_reference(hs, n - 1);
        lemma_names_disjoint();
        let h = header_key(hs[n - 1]);
        if names_reference(h) {
            assert(!names_package(h));
            assert(!names_x(h));
            assert(!names_y(h));
            assert(!names_rotation(h));
            assert(!names_side(h));
        }
        assert forall|k: int|
            0 <= k < n && names_reference(header_key(hs[k])) && (forall|q: int| k < q < n ==> !names_reference(#[trigger] header_key(hs[q])))
                implies header_columns(hs, n).reference == k by {
            if k < n - 1 {
                assert(!names_reference(header_key(hs[n - 1])));
            }
        }
    }
}

/// A header name (lower-cased, without quotes) that names the package column.
pub open spec fn names_package(h: Seq<char>) -> bool {
    h == seq!['p', 'a', 'c', 'k', 'a', 'g', 'e'] || h == seq!['f', 'o', 'o', 't', 'p', 'r', 'i', 'n', 't']
}

/// The package column is the last header field (among the first `n`) that
/// names it, or column 2 when none does.
pub proof fn lemma_header_package(hs: Seq<Seq<char>>, n: int)
    requires
        0 <= n <= hs.len(),
        n <= usize::MAX,
    ensures
        (forall|q: int| 0 <= q < n ==> !names_package(#[trigger] header_key(hs[q]))) ==> header_columns(hs, n).package == 2,
        forall|k: int|
            0 <= k < n && names_package(header_key(hs[k])) && (forall|q: int| k < q < n ==> !names_package(#[trigger] header_key(hs[q])))
                ==> header_columns(hs, n).package == k,
    decreases n,
{
    if n > 0 {
        lemma_header_package(hs, n - 1);
        lemma_names_disjoint();
        let h = header_key(hs[n - 1]);
        if names_package(h) {
            assert(!names_reference(h));
            assert(!names_x(h));
            assert(!names_y(h));
            assert(!names_rotation(h));
            assert(!names_side(h));
        }
        assert forall|k: int|
            0 <= k < n && names_package(header_key(hs[k])) && (forall|q: int| k < q < n ==> !names_package(#[trigger] header_key(hs[q])))
                implies header_columns(hs, n).package == k by {
            if k < n - 1 {
                assert(!names_package(header_key(hs[n - 1])));
            }
        }
    }
}

/// A header name (lower-cased, without quotes) that names the x column.
pub open spec fn names_x(h: Seq<char>) -> bool {
    h == seq!['p', 'o', 's', 'x'] || h == seq!['p', 'o', 's', ' ', 'x'] || h == seq!['x']
}

/// The x column is the last header field (among the first `n`) that
/// names it, or column 3 when none does.
pub proof fn lemma_header_x(hs: Seq<Seq<char>>, n: int)
    requires
        0 <= n <= hs.len(),
        n <= usize::MAX,
    ensures
        (forall|q: int| 0 <= q < n ==> !names_x(#[trigger] header_key(hs[q]))) ==> header_columns(hs, n).x == 3,
        forall|k: int|
            0 <= k < n && names_x(header_key(hs[k])) && (forall|q: int| k < q < n ==> !names_x(#[trigger] header_key(hs[q])))
                ==> header_columns(hs, n).x == k,
    decreases n,
{
    if n > 0 {
        lemma_header_x(hs, n - 1);
        lemma_names_disjoint();
        let h = header_key(hs[n - 1]);
        if names_x(h) {
            assert(!names_reference(h));
            assert(!names_package(h));
            assert(!names_y(h));
            assert(!names_rotation(h));
            assert(!names_side(h));
        }
        assert forall|k: int|
            0 <= k < n && names_x(header_key(hs[k])) && (forall|q: int| k < q < n ==> !names_x(#[trigger] header_key(hs[q])))
                implies header_columns(hs, n).x == k by {
            if k < n - 1 {
                assert(!names_x(header_key(hs[n - 1])));
            }
        }
    }
}

/// A header name (lower-cased, without quotes) that names the y column.
pub open spec fn names_y(h: Seq<char>) -> bool {
    h == seq!['p', 'o', 's', 'y'] || h == seq!['p', 'o', 's', ' ', 'y'] || h == seq!['y']
}

/// The y column is the last header field (among the first `n`) that
/// names it, or column 4 when none does.
pub proof fn lemma_header_y(hs: Seq<Seq<char>>, n: int)
    requires
        0 <= n <= hs.len(),
        n <= usize::MAX,
    ensures
        (forall|q: int| 0 <= q < n ==> !names_y(#[trigger] header_key(hs[q]))) ==> header_columns(hs, n).y == 4,
        forall|k: int|
            0 <= k < n && names_y(header_key(hs[k])) && (forall|q: int| k < q < n ==> !names_y(#[trigger] header_key(hs[q])))
                ==> header_columns(hs, n).y == k,
    decreases n,
{
    if n > 0 {
        lemma_header_y(hs, n - 1);
        lemma_names_disjoint();
        let h = header_key(hs[n - 1]);
        if names_y(h) {
            assert(!names_reference(h));
            assert(!names_package(h));
            assert(!names_x(h));
            assert(!names_rotation(h));
            assert(!names_side(h));
        }
        assert forall|k: int|
            0 <= k < n && names_y(header_key(hs[k])) && (forall|q: int| k < q < n ==> !names_y(#[trigger] header_key(hs[q])))
                implies header_columns(hs, n).y == k by {
            if k < n - 1 {
                assert(!names_y(header_key(hs[n - 1])));
            }
        }
    }
}

/// A header name (lower-cased, without quotes) that names the rotation column.
pub open spec fn names_rotation(h: Seq<char>) -> bool {
    h == seq!['r', 'o', 't'] || h == seq!['r', 'o', 't', 'a', 't', 'i', 'o', 'n']
}

/// The rotation column is the last header field (among the first `n`) that
/// names it, or column 5 when none does.
pub proof fn lemma_header_rotation(hs: Seq<Seq<char>>, n: int)
    requires
        0 <= n <= hs.len(),
        n <= usize::MAX,
    ensures
        (forall|q: int| 0 <= q < n ==> !names_rotation(#[trigger] header_key(hs[q]))) ==> header_columns(hs, n).rotation == 5,
        forall|k: int|
            0 <= k < n && names_rotation(header_key(hs[k])) && (forall|q: int| k < q < n ==> !names_rotation(#[trigger] header_key(hs[q])))
                ==> header_columns(hs, n).rotation == k,
    decreases n,
{
    if n > 0 {
        lemma_header_rotation(hs, n - 1);
        lemma_names_disjoint();
        let h = header_key(hs[n - 1]);
        if names_rotation(h) {
            assert(!names_reference(h));
            assert(!names_package(h));
            assert(!names_x(h));
            assert(!names_y(h));
            assert(!names_side(h));
        }
        assert forall|k: int|
            0 <= k < n && names_rotation(header_key(hs[k])) && (forall|q: int| k < q < n ==> !names_rotation(#[trigger] header_key(hs[q])))
                implies header_columns(hs, n).rotation == k by {
            if k < n - 1 {
                assert(!names_rotation(header_key(hs[n - 1])));
            }
        }
    }
}

/// A header name (lower-cased, without quotes) that names the side column.
pub open spec fn names_side(h: Seq<char>) -> bool {
    h == seq!['s', 'i', 'd', 'e']
}

/// The side column is the last header field (among the first `n`) that
/// names it, or column 6 when none does.
pub proof fn lemma_header_side(hs: Seq<Seq<char>>, n: int)
    requires
        0 <= n <= hs.len(),
        n <= usize::MAX,
    ensures
        (forall|q: int| 0 <= q < n ==> !names_side(#[trigger] header_key(hs[q]))) ==> header_columns(hs, n).side == 6,
        forall|k: int|
            0 <= k < n && names_side(header_key(hs[k])) && (forall|q: int| k < q < n ==> !names_side(#[trigger] header_key(hs[q])))
                ==> header_columns(hs, n).side == k,
    decreases n,
{
    if n > 0 {
        lemma_header_side(hs, n - 1);
        lemma_names_disjoint();
        let h = header_key(hs[n - 1]);
        if names_side(h) {
            assert(!names_reference(h));
            assert(!names_package(h));
            assert(!names_x(h));
            assert(!names_y(h));
            assert(!names_rotation(h));
        }
        assert forall|k: int|
            0 <= k < n && names_side(header_key(hs[k])) && (forall|q: int| k < q < n ==> !names_side(#[trigger] header_key(hs[q])))
                implies header_columns(hs, n).side == k by {
            if k < n - 1 {
                assert(!names_side(header_key(hs[n - 1])));
            }
        }
    }
}

/// No header name names two columns.
proof fn lemma_names_disjoint()
    ensures
        forall|h: Seq<char>| !(#[trigger] names_reference(h) && #[trigger] names_package(h)),
        forall|h: Seq<char>| !(#[trigger] names_reference(h) && #[trigger] names_x(h)),
        forall|h: Seq<char>| !(#[trigger] names_reference(h) && #[trigger] names_y(h)),
        forall|h: Seq<char>| !(#[trigger] names_reference(h) && #[trigger] names_rotation(h)),
        forall|h: Seq<char>| !(#[trigger] names_reference(h) && #[trigger] names_side(h)),
        forall|h: Seq<char>| !(#[trigger] names_package(h) && #[trigger] names_x(h)),
        forall|h: Seq<char>| !(#[trigger] names_package(h) && #[trigger] names_y(h)),
        forall|h: Seq<char>| !(#[trigger] names_package(h) && #[trigger] names_rotation(h)),
        forall|h: Seq<char>| !(#[trigger] names_package(h) && #[trigger] names_side(h)),
        forall|h: Seq<char>| !(#[trigger] names_x(h) && #[trigger] names_y(h)),
        forall|h: Seq<char>| !(#[trigger] names_x(h) && #[trigger] names_rotation(h)),
        forall|h: Seq<char>| !(#[trigger] names_x(h) && #[trigger] names_side(h)),
        forall|h: Seq<char>| !(#[trigger] names_y(h) && #[trigger] names_rotation(h)),
        forall|h: Seq<char>| !(#[trigger] names_y(h) && #[trigger] names_side(h)),
        forall|h: Seq<char>| !(#[trigger] names_rotation(h) && #[trigger] names_side(h)),
{
    assert(seq!['r', 'e', 'f'].len() != seq!['p', 'a', 'c', 'k', 'a', 'g', 'e'].len());
    assert(seq!['r', 'e', 'f'].len() != seq!['f', 'o', 'o', 't', 'p', 'r', 'i', 'n', 't'].len());
    assert(seq!['r', 'e', 'f'].len() != seq!['p', 'o', 's', 'x'].len());
    assert(seq!['r', 'e', 'f'].len() != seq!['p', 'o', 's', ' ', 'x'].len());
    assert(seq!['r', 'e', 'f'].len() != seq!['x'].len());
    assert(seq!['r', 'e', 'f'].len() != seq!['p', 'o', 's', 'y'].len());
    assert(seq!['r', 'e', 'f'].len() != seq!['p', 'o', 's', ' ', 'y'].len());
    assert(seq!['r', 'e', 'f'].len() != seq!['y'].len());
    assert(seq!['r', 'e', 'f'][1] != seq!['r', 'o', 't'][1]);
    assert(seq!['r', 'e', 'f'].len() != seq!['r', 'o', 't', 'a', 't', 'i', 'o', 'n'].len());
    assert(seq!['r', 'e', 'f'].len() != seq!['s', 'i', 'd', 'e'].len());
    assert(seq!['p', 'a', 'c', 'k', 'a', 'g', 'e'].len() != seq!['p', 'o', 's', 'x'].len());
    assert(seq!['p', 'a', 'c', 'k', 'a', 'g', 'e'].len() != seq!['p', 'o', 's', ' ', 'x'].len());
    assert(seq!['p', 'a', 'c', 'k', 'a', 'g', 'e'].len() != seq!['x'].len());
    assert(seq!['p', 'a', 'c', 'k', 'a', 'g', 'e'].len() != seq!['p', 'o', 's', 'y'].len());
    assert(seq!['p', 'a', 'c', 'k', 'a', 'g', 'e'].len() != seq!['p', 'o', 's', ' ', 'y'].len());
    assert(seq!['p', 'a', 'c', 'k', 'a', 'g', 'e'].len() != seq!['y'].len());
    assert(seq!['p', 'a', 'c', 'k', 'a', 'g', 'e'].len() != seq!['r', 'o', 't'].len());
    assert(seq!['p', 'a', 'c', 'k', 'a', 'g', 'e'].len() != seq!['r', 'o', 't', 'a', 't', 'i', 'o', 'n'].len());
    assert(seq!['p', 'a', 'c', 'k', 'a', 'g', 'e'].len() != seq!['s', 'i', 'd', 'e'].len());
    assert(seq!['f', 'o', 'o', 't', 'p', 'r', 'i', 'n', 't'].len() != seq!['p', 'o', 's', 'x'].len());
    assert(seq!['f', 'o', 'o', 't', 'p', 'r', 'i', 'n', 't'].len() != seq!['p', 'o', 's', ' ', 'x'].len());
    assert(seq!['f', 'o', 'o', 't', 'p', 'r', 'i', 'n', 't'].len() != seq!['x'].len());
    assert(seq!['f', 'o', 'o', 't', 'p', 'r', 'i', 'n', 't'].len() != seq!['p', 'o', 's', 'y'].len());
    assert(seq!['f', 'o', 'o', 't', 'p', 'r', 'i', 'n', 't'].len() != seq!['p', 'o', 's', ' ', 'y'].len());
    assert(seq!['f', 'o', 'o', 't', 'p', 'r', 'i', 'n', 't'].len() != seq!['y'].len());
    assert(seq!['f', 'o', 'o', 't', 'p', 'r', 'i', 'n', 't'].len() != seq!['r', 'o', 't'].len());
    assert(seq!['f', 'o', 'o', 't', 'p', 'r', 'i', 'n', 't'].len() != seq!['r', 'o', 't', 'a', 't', 'i', 'o', 'n'].len());
    assert(seq!['f', 'o', 'o', 't', 'p', 'r', 'i', 'n', 't'].len() != seq!['s', 'i', 'd', 'e'].len());
    assert(seq!['p', 'o', 's', 'x'][3] != seq!['p', 'o', 's', 'y'][3]);
    assert(seq!['p', 'o', 's', 'x'].len() != seq!['p', 'o', 's', ' ', 'y'].len());
    assert(seq!['p', 'o', 's', 'x'].len() != seq!['y'].len());
    assert(seq!['p', 'o', 's', 'x'].len() != seq!['r', 'o', 't'].len());
    assert(seq!['p', 'o', 's', 'x'].len() != seq!['r', 'o', 't', 'a', 't', 'i', 'o', 'n'].len());
    assert(seq!['p', 'o', 's', 'x'][0] != seq!['s', 'i', 'd', 'e'][0]);
    assert(seq!['p', 'o', 's', ' ', 'x'].len() != seq!['p', 'o', 's', 'y'].len());
    assert(seq!['p', 'o', 's', ' ', 'x'][4] != seq!['p', 'o', 's', ' ', 'y'][4]);
    assert(seq!['p', 'o', 's', ' ', 'x'].len() != seq!['y'].len());
    assert(seq!['p', 'o', 's', ' ', 'x'].len() != seq!['r', 'o', 't'].len());
    assert(seq!['p', 'o', 's', ' ', 'x'].len() != seq!['r', 'o', 't', 'a', 't', 'i', 'o', 'n'].len());
    assert(seq!['p', 'o', 's', ' ', 'x'].len() != seq!['s', 'i', 'd', 'e'].len());
    assert(seq!['x'].len() != seq!['p', 'o', 's', 'y'].len());
    assert(seq!['x'].len() != seq!['p', 'o', 's', ' ', 'y'].len());
    assert(seq!['x'][0] != seq!['y'][0]);
    assert(seq!['x'].len() != seq!['r', 'o', 't'].len());
    assert(seq!['x'].len() != seq!['r', 'o', 't', 'a', 't', 'i', 'o', 'n'].len());
    assert(seq!['x'].len() != seq!['s', 'i', 'd', 'e'].len());
    assert(seq!['p', 'o', 's', 'y'].len() != seq!['r', 'o', 't'].len());
    assert(seq!['p', 'o', 's', 'y'].len() != seq!['r', 'o', 't', 'a', 't', 'i', 'o', 'n'].len());
    assert(seq!['p', 'o', 's', 'y'][0] != seq!['s', 'i', 'd', 'e'][0]);
    assert(seq!['p', 'o', 's', ' ', 'y'].len() != seq!['r', 'o', 't'].len());
    assert(seq!['p', 'o', 's', ' ', 'y'].len() != seq!['r', 'o', 't', 'a', 't', 'i', 'o', 'n'].len());
    assert(seq!['p', 'o', 's', ' ', 'y'].len() != seq!['s', 'i', 'd', 'e'].len());
    assert(seq!['y'].len() != seq!['r', 'o', 't'].len());
    assert(seq!['y'].len() != seq!['r', 'o', 't', 'a', 't', 'i', 'o', 'n'].len());
    assert(seq!['y'].len() != seq!['s', 'i', 'd', 'e'].len());
    assert(seq!['r', 'o', 't'].len() != seq!['s', 'i', 'd', 'e'].len());
    assert(seq!['r', 'o', 't', 'a', 't', 'i', 'o', 'n'].len() != seq!['s', 'i', 'd', 'e'].len());
}

} // verus!
