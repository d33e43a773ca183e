use lnp2::config::boards::BoardSide;
use lnp2::import::kicad_pos::{
    is_fiducial, parse_ascii, parse_csv, parse_side, split_csv_line, unquote,
};
use lnp2::import::openpnp::{slot_feeder_name, split_xml_elements};
use lnp2::import::{detect_format, import_placement_text, Format, ImportError};

fn num(t: &str) -> f64 {
    t.parse::<f64>().unwrap()
}

#[test]
fn test_detect_kicad_ascii() {
    let content = "### Footprint Position - created on 2024-01-01\n## Unit = mm, Angle = deg.\n## Side: top\n# Ref  Val  Package  PosX  PosY  Rot  Side\n";
    assert_eq!(detect_format(content), Format::KiCadAscii);
}

#[test]
fn test_detect_kicad_csv() {
    let content = "Ref,Val,Package,PosX,PosY,Rot,Side\nC1,1uF,C_0603,47.9,45.6,0.0,top\n";
    assert_eq!(detect_format(content), Format::KiCadCsv);
}

#[test]
fn test_detect_unknown() {
    let content = "random garbage\n";
    assert_eq!(detect_format(content), Format::Unknown);
}

#[test]
fn test_parse_ascii_basic() {
    let content = r#"### Footprint Position - Component Side - created on 2024-01-01
## Unit = mm, Angle = deg.
## Side : top
# Ref     Val         Package                PosX       PosY       Rot    Side
C1        1uF         C_0603_1608Metric      47.9000    45.6000    0.0    top
R1        1K          R_0805_2012Metric      50.1000    30.2000    90.0   top
U1        STM32       QFP48                  60.0000    40.0000    270.0  top
"#;
    let result = parse_ascii(content).unwrap();
    assert_eq!(result.placements.len(), 3);
    assert_eq!(result.fiducials.len(), 0);
    assert_eq!(result.placements[0].reference, "C1");
    assert!((num(&result.placements[0].x.text) - 47.9).abs() < 0.001);
    assert!((num(&result.placements[1].rotation.text) - 90.0).abs() < 0.001);
    assert!((num(&result.placements[2].rotation.text) - 270.0).abs() < 0.001);
}

#[test]
fn test_parse_ascii_with_fiducials() {
    let content = r#"### Footprint Position
## Unit = mm, Angle = deg.
# Ref     Val         Package                PosX       PosY       Rot    Side
FID1      FID         Fiducial_1mm           5.0000     5.0000     0.0    top
C1        1uF         C_0603_1608Metric      47.9000    45.6000    0.0    top
FID2      FID         Fiducial_1mm           95.0000    55.0000    0.0    top
"#;
    let result = parse_ascii(content).unwrap();
    assert_eq!(result.placements.len(), 1);
    assert_eq!(result.fiducials.len(), 2);
    assert_eq!(result.fiducials[0].reference, "FID1");
    assert!((num(&result.fiducials[0].x.text) - 5.0).abs() < 0.001);
    assert_eq!(result.fiducials[1].reference, "FID2");
}

#[test]
fn test_parse_csv_basic() {
    let content = r#"Ref,Val,Package,PosX,PosY,Rot,Side
C1,1uF,C_0603_1608Metric,47.9000,45.6000,0.0,top
R1,1K,R_0805_2012Metric,50.1000,30.2000,90.0,top
"#;
    let result = parse_csv(content).unwrap();
    assert_eq!(result.placements.len(), 2);
    assert_eq!(result.placements[0].reference, "C1");
    assert!((num(&result.placements[0].x.text) - 47.9).abs() < 0.001);
    assert!((num(&result.placements[1].rotation.text) - 90.0).abs() < 0.001);
}

#[test]
fn test_parse_csv_quoted() {
    let content = r#""Ref","Val","Package","PosX","PosY","Rot","Side"
"C1","1uF","C_0603_1608Metric","47.9000","45.6000","0.0","top"
"#;
    let result = parse_csv(content).unwrap();
    assert_eq!(result.placements.len(), 1);
    assert_eq!(result.placements[0].reference, "C1");
}

#[test]
fn test_parse_csv_with_fiducials() {
    let content = r#"Ref,Val,Package,PosX,PosY,Rot,Side
FID1,FID,Fiducial_1mm,5.0,5.0,0.0,top
C1,1uF,C_0603,47.9,45.6,0.0,top
FID2,FID,Fiducial_1mm,95.0,55.0,0.0,top
"#;
    let result = parse_csv(content).unwrap();
    assert_eq!(result.placements.len(), 1);
    assert_eq!(result.fiducials.len(), 2);
}

#[test]
fn test_parse_csv_bottom_side() {
    let content = r#"Ref,Val,Package,PosX,PosY,Rot,Side
C1,1uF,C_0603,47.9,45.6,0.0,bottom
"#;
    let result = parse_csv(content).unwrap();
    assert_eq!(result.placements[0].side, BoardSide::Bottom);
}

#[test]
fn test_is_fiducial() {
    assert!(is_fiducial("Fiducial_1mm", "FID1"));
    assert!(is_fiducial("SomePackage", "FID2"));
    assert!(is_fiducial("fid_1mm_Cu", "J1"));
    assert!(!is_fiducial("C_0603", "C1"));
    assert!(!is_fiducial("R_0805", "R1"));
}

#[test]
fn test_empty_content() {
    let result = parse_ascii("");
    assert!(result.is_err());
}

// --- Further cases ---

#[test]
fn csv_line_splitting_and_unquoting() {
    assert_eq!(split_csv_line("a,\"b\",,c"), vec!["a", "\"b\"", "", "c"]);
    assert_eq!(unquote("\"x\""), "x");
    assert_eq!(unquote("  y "), "y");
}

#[test]
fn sides() {
    assert_eq!(parse_side("bottom"), BoardSide::Bottom);
    assert_eq!(parse_side("BOT"), BoardSide::Bottom);
    assert_eq!(parse_side("top"), BoardSide::Top);
    assert_eq!(parse_side("anything"), BoardSide::Top);
}

#[test]
fn ascii_rows_with_too_few_fields_are_warned() {
    let content = "# Ref Val Package PosX PosY Rot Side\nC1 1uF C_0603 1.0\nR1 1K R_0805 2.0 3.0 0.0 top\n";
    let result = parse_ascii(content).unwrap();
    assert_eq!(result.placements.len(), 1);
    assert_eq!(result.warnings.len(), 1);
    assert_eq!(result.placements[0].line, 3);
}

#[test]
fn import_text_picks_the_parser() {
    let csv = "Ref,Val,Package,PosX,PosY,Rot,Side\nC1,1uF,C_0603,47.9,45.6,0.0,top\n";
    assert_eq!(import_placement_text(csv).unwrap().placements.len(), 1);
    assert!(matches!(
        import_placement_text("random garbage\n"),
        Err(ImportError::UnknownFormat)
    ));
    assert!(matches!(parse_csv("Ref,Val\n"), Err(ImportError::NoData)));
}

#[test]
fn xml_elements_are_split() {
    let xml = r#"<root><part id="a" height="1"/><part id="b"><x/></part><parts/><part id="c" /></root>"#;
    let parts = split_xml_elements(xml, "part");
    assert_eq!(
        parts,
        vec![
            r#"<part id="a" height="1"/>"#.to_string(),
            r#"<part id="b"><x/></part>"#.to_string(),
            r#"<part id="c" />"#.to_string(),
        ]
    );
    assert!(split_xml_elements("<other a=\"1\"/>", "part").is_empty());
    assert!(split_xml_elements("<part a=\"1\">", "part").is_empty());
}

#[test]
fn slot_names() {
    assert_eq!(slot_feeder_name(1), "slot_1");
    assert_eq!(slot_feeder_name(42), "slot_42");
}

/// Rotation in degrees in [0, 360). The library returns the rotation as text;
/// this mirrors the normalisation that the application applies to it, so the
/// float assertion below checks the expected value, not library code.
fn rotation_degrees(t: &str) -> f64 {
    let mut r = num(t) % 360.0;
    if r < 0.0 {
        r += 360.0;
    }
    r
}

#[test]
fn test_parse_ascii_negative_rotation() {
    let content = r#"# Ref Val Package PosX PosY Rot Side
R1 1K R_0805 50.0 30.0 -90.0 top
"#;
    let result = parse_ascii(content).unwrap();
    assert_eq!(result.placements[0].rotation.text, "-90.0");
    assert!((rotation_degrees(&result.placements[0].rotation.text) - 270.0).abs() < 0.001);
}
