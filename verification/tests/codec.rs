use tsi::reader::{
    parse_exclusion_line, parse_inclusion_line, parse_triangle_line, parse_vertex_line,
    MissingItem, ReadTsi, TsiError,
};
use tsi::writer::WriteTsi;
use tsi::{Exclusion, Fixed, Inclusion, Triangle, Tsi, Vec2, Vec3, Vertex};

fn fx(milli: i64) -> Fixed {
    Fixed { milli }
}

fn v3(x: i64, y: i64, z: i64) -> Vec3 {
    Vec3 { x: fx(x), y: fx(y), z: fx(z) }
}

const VALID_TSI: &str = "\
version 1.1
box 50.0 50.0 50.0
vertex 3
0 21.4 33.8 32.7 0
1 38.1 26.1 32.3 0
2 40.9 24.2 19.9 0
triangle 1
0 1 0 2 1
inclusion 1
0 1 2 0 1";

fn create_sample_tsi() -> Tsi {
    Tsi {
        dimensions: v3(50_000, 50_000, 50_000),
        vertices: vec![
            Vertex { position: v3(21_400, 33_800, 32_700), domain: 0 },
            Vertex { position: v3(38_100, 26_100, 32_300), domain: 0 },
        ],
        triangles: vec![Triangle { v0: 0, v1: 1, v2: 2 }],
        inclusions: vec![
            Inclusion { ty: 1, vertex_index: 2, vector: Vec2 { x: fx(0), y: fx(1_000) } },
        ],
        exclusions: vec![Exclusion { vertex_index: 0, radius: fx(5_000) }],
    }
}

#[test]
fn basic() {
    let src = "version 1.1
box 50.000     50.000     50.000
vertex 3
0       21.4    33.8    32.7    0
1       38.1    26.1    32.3    0
2       40.9    24.2    19.9    0
triangle 1
0          1       2       0    1
inclusion 3
0         1       22       0    1
1         1        5       0    1
2         2       30       0    1";
    let tsi = Tsi::parse(src.as_bytes()).unwrap();
    assert_eq!(tsi.dimensions, Vec3 { x: fx(50_000), y: fx(50_000), z: fx(50_000) });
    assert_eq!(tsi.vertices.len(), 3);
    assert_eq!(tsi.triangles.len(), 1);
    assert_eq!(tsi.inclusions.len(), 3);
    assert_eq!(tsi.exclusions.len(), 0);
}

#[test]
fn parse_valid_sample() {
    let result = Tsi::parse(VALID_TSI.as_bytes());
    assert!(result.is_ok(), "Should parse valid TSI data: {:?}", result.err());
    let tsi = result.unwrap();
    assert_eq!(tsi.dimensions, v3(50_000, 50_000, 50_000));
    assert_eq!(tsi.vertices.len(), 3);
    assert_eq!(tsi.inclusions.len(), 1);
}

#[test]
fn normalization_safety() {
    // A (0.0, 0.0) vector must stay the zero vector, not blow up.
    let zero_vector_line = "0 1 2 0.0 0.0";
    let inclusion = parse_inclusion_line(zero_vector_line.as_bytes(), 0).unwrap();
    assert_eq!(inclusion.vector, Vec2 { x: fx(0), y: fx(0) });
    assert_eq!(inclusion.vector.x.milli, 0);
}

#[test]
fn index_mismatch() {
    let bad_index_line = "5 21.4 33.8 32.7 0"; // Expected 0, found 5.
    let result = parse_vertex_line(bad_index_line.as_bytes(), 0);
    match result {
        Err(TsiError::IndexMismatch { found, expected, .. }) => {
            assert_eq!(found, 5);
            assert_eq!(expected, 0);
        }
        _ => panic!("Expected IndexMismatch error"),
    }
}

#[test]
fn invalid_version() {
    let invalid_version = VALID_TSI.replace("version 1.1", "version 2.0");
    let result = Tsi::parse(invalid_version.as_bytes());
    assert!(matches!(result, Err(TsiError::InvalidVersion(_))));
}

#[test]
fn writer_formatting() {
    let tsi = create_sample_tsi();
    let output = String::from_utf8(tsi.write()).expect("output should be valid UTF-8");

    // Verify front matter: every length field gets three fractional digits.
    assert!(output.contains("version 1.1"));
    assert!(output.contains("box 50.000 50.000 50.000"));

    // Verify triangle format (v1 v2 v3).
    assert!(output.contains("0 0 1 2"));

    // Verify exclusion precision.
    assert!(output.contains("0 0 5.000"));

    // Also verify how values with fewer significant digits are written out.
    let mut tsi = tsi;
    tsi.dimensions = v3(50_120, 50_123, 50_123);
    let output = String::from_utf8(tsi.write()).expect("output should be valid UTF-8");
    assert!(output.contains("box 50.120 50.123 50.123"));
}

/// Check that `parse(write(data)) == data`.
#[test]
fn tsi_round_trip() {
    let original = create_sample_tsi();
    let buffer = original.write();
    let recovered = Tsi::parse(&buffer).expect("failed to parse back serialized data");

    assert_eq!(original.dimensions, recovered.dimensions);
    assert_eq!(original.vertices.len(), recovered.vertices.len());
    assert_eq!(original.triangles.len(), recovered.triangles.len());
    assert_eq!(original.inclusions.len(), recovered.inclusions.len());
    assert_eq!(original.exclusions.len(), recovered.exclusions.len());

    // Detailed check on specific values.
    assert_eq!(original.vertices[0].position, recovered.vertices[0].position);
    assert_eq!(original.inclusions[0].vector, recovered.inclusions[0].vector);
}

#[test]
fn inclusion_vector_normalized() {
    // A raw (3, 4) vector becomes the unit vector (0.6, 0.8).
    let inclusion = parse_inclusion_line("0 7 9 3 4".as_bytes(), 0).unwrap();
    assert_eq!(inclusion.ty, 7);
    assert_eq!(inclusion.vertex_index, 9);
    assert_eq!(inclusion.vector, Vec2 { x: fx(600), y: fx(800) });
}

#[test]
fn inclusion_vector_diagonal() {
    // A raw (1, 1) vector becomes (0.707, 0.707).
    let inclusion = parse_inclusion_line("0 1 2 1.0 1.0".as_bytes(), 0).unwrap();
    assert_eq!(inclusion.vector, Vec2 { x: fx(707), y: fx(707) });
}

#[test]
fn inclusion_vector_negative() {
    let inclusion = parse_inclusion_line("0 1 2 -3 4".as_bytes(), 0).unwrap();
    assert_eq!(inclusion.vector, Vec2 { x: fx(-600), y: fx(800) });
}

#[test]
fn vertex_domain_defaults_to_zero() {
    let vertex = parse_vertex_line("0 1.5 2.5 3.5".as_bytes(), 0).unwrap();
    assert_eq!(vertex.domain, 0);
    assert_eq!(vertex.position, v3(1_500, 2_500, 3_500));
}

#[test]
fn vertex_domain_explicit() {
    let vertex = parse_vertex_line("0 1.5 2.5 3.5 -7".as_bytes(), 0).unwrap();
    assert_eq!(vertex.domain, -7);
}

#[test]
fn triangle_line_fields() {
    let triangle = parse_triangle_line("2 10 20 30".as_bytes(), 2).unwrap();
    assert_eq!(triangle, Triangle { v0: 10, v1: 20, v2: 30 });
}

#[test]
fn exclusion_line_fields() {
    let exclusion = parse_exclusion_line("0 4 2.25".as_bytes(), 0).unwrap();
    assert_eq!(exclusion, Exclusion { vertex_index: 4, radius: fx(2_250) });
}

#[test]
fn missing_version_is_reported() {
    let result = Tsi::parse("box 1.0 2.0 3.0".as_bytes());
    assert!(matches!(result, Err(TsiError::Missing(MissingItem::Definition("version")))));
}

#[test]
fn missing_box_is_reported() {
    let result = Tsi::parse("version 1.1".as_bytes());
    assert!(matches!(result, Err(TsiError::Missing(MissingItem::Definition("box")))));
}

#[test]
fn unexpected_keyword_is_reported() {
    let result = Tsi::parse("version 1.1\nsphere 3".as_bytes());
    match result {
        Err(TsiError::UnexpectedKeyword(word)) => assert_eq!(word, b"sphere".to_vec()),
        other => panic!("Expected UnexpectedKeyword, got {:?}", other),
    }
}

#[test]
fn unparsable_count_is_reported() {
    let result = Tsi::parse("version 1.1\nbox 1 1 1\nvertex x".as_bytes());
    assert!(matches!(result, Err(TsiError::ParseInt)));
}

#[test]
fn unparsable_number_is_reported() {
    let result = Tsi::parse("version 1.1\nbox 1 nope 1".as_bytes());
    assert!(matches!(result, Err(TsiError::ParseFloat)));
}

#[test]
fn missing_token_is_reported() {
    let result = Tsi::parse("version 1.1\nbox 1 1".as_bytes());
    assert!(matches!(result, Err(TsiError::Missing(MissingItem::Value("box z")))));
}

#[test]
fn missing_record_line_is_reported() {
    let result = Tsi::parse("version 1.1\nbox 1 1 1\nvertex 2\n0 1 2 3".as_bytes());
    assert!(matches!(result, Err(TsiError::Missing(MissingItem::Vertex(1)))));
}

#[test]
fn version_via_trait() {
    let tsi = <Tsi as ReadTsi>::parse(VALID_TSI.as_bytes()).unwrap();
    assert_eq!(tsi.vertices.len(), 3);
}

#[test]
fn directives_accepted_in_any_order() {
    let src = "box 1 2 3\nexclusion 1\n0 5 0.5\nversion 1.1";
    let tsi = Tsi::parse(src.as_bytes()).unwrap();
    assert_eq!(tsi.dimensions, v3(1_000, 2_000, 3_000));
    assert_eq!(tsi.exclusions, vec![Exclusion { vertex_index: 5, radius: fx(500) }]);
}

#[test]
fn decoder_rounds_to_thousandths() {
    let tsi = Tsi::parse("version 1.1\nbox 1.23456 1.23449 -1.2345".as_bytes()).unwrap();
    assert_eq!(tsi.dimensions, v3(1_235, 1_234, -1_235));
}

#[test]
fn plus_signs_are_accepted() {
    let vertex = parse_vertex_line("+0 +1.5 2.5 3.5 +7".as_bytes(), 0).unwrap();
    assert_eq!(vertex.domain, 7);
    assert_eq!(vertex.position.x, fx(1_500));
}

#[test]
fn oversized_number_is_reported() {
    let result = Tsi::parse("version 1.1\nbox 99999999999999999999 1 1".as_bytes());
    assert!(matches!(result, Err(TsiError::ParseFloat)));
}

#[test]
fn example_document_end_to_end() {
    let src = "version 1.1
box 50.000 50.000 50.000
vertex 2
0 21.400 33.800 32.700 0
1 38.100 26.100 32.300 0
triangle 0
inclusion 0
exclusion 0
";
    let tsi = Tsi::parse(src.as_bytes()).unwrap();
    assert_eq!(tsi.dimensions, v3(50_000, 50_000, 50_000));
    assert_eq!(tsi.vertices.len(), 2);
    assert_eq!(tsi.triangles.len(), 0);
    assert_eq!(tsi.inclusions.len(), 0);
    assert_eq!(tsi.exclusions.len(), 0);

    // Re-encoding reproduces the text byte for byte.
    let out = tsi.encode();
    assert_eq!(String::from_utf8(out).unwrap(), src);
}

#[test]
fn empty_input_reports_missing_version() {
    let result = Tsi::parse(b"");
    assert!(matches!(result, Err(TsiError::Missing(MissingItem::Definition("version")))));
}

#[test]
fn empty_line_is_rejected() {
    let result = Tsi::parse("version 1.1\n\nbox 1 1 1".as_bytes());
    assert!(matches!(result, Err(TsiError::Missing(MissingItem::Value("section keyword")))));
}
