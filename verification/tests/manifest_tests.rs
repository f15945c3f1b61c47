use dzi_assemble::manifest::{parse_manifest, ManifestError};

fn bytes(s: &str) -> Vec<u8> {
    s.as_bytes().to_vec()
}

#[test]
fn parse_basic_manifest() {
    let input = bytes("format\n100,200\n2,1\na,b\n");
    let f = parse_manifest(&input).unwrap();
    assert_eq!(f.width, 100);
    assert_eq!(f.height, 200);
    assert_eq!(f.layers.len(), 1);
    assert_eq!(f.layers[0].cols, 2);
    assert_eq!(f.layers[0].rows, 1);
    assert_eq!(f.layers[0].tiles.len(), 1);
    assert_eq!(f.layers[0].tiles[0], vec![b"a".to_vec(), b"b".to_vec()]);
}

#[test]
fn parse_zero_layers_is_valid() {
    let f = parse_manifest(&bytes("format\n10,20\n")).unwrap();
    assert_eq!(f.width, 10);
    assert_eq!(f.height, 20);
    assert_eq!(f.layers.len(), 0);
    let g = parse_manifest(&bytes("format\n10,20")).unwrap();
    assert_eq!(g.layers.len(), 0);
}

#[test]
fn parse_trims_surrounding_whitespace() {
    let input = bytes("format\n 100 ,\t200 \n1,1\n  t1 , t2\n");
    let f = parse_manifest(&input).unwrap();
    assert_eq!(f.width, 100);
    assert_eq!(f.height, 200);
    assert_eq!(f.layers[0].tiles[0], vec![b"t1".to_vec(), b"t2".to_vec()]);
}

#[test]
fn parse_accepts_leading_plus() {
    let f = parse_manifest(&bytes("format\n+5,+6\n")).unwrap();
    assert_eq!(f.width, 5);
    assert_eq!(f.height, 6);
}

#[test]
fn parse_handles_crlf_line_endings() {
    let input = bytes("format\r\n100,100\r\n1,1\r\na\r\n");
    let f = parse_manifest(&input).unwrap();
    assert_eq!(f.width, 100);
    assert_eq!(f.layers[0].tiles[0], vec![b"a".to_vec()]);
}

#[test]
fn parse_keeps_empty_identifiers() {
    let input = bytes("format\n10,10\n3,1\na,,c\n");
    let f = parse_manifest(&input).unwrap();
    assert_eq!(
        f.layers[0].tiles[0],
        vec![b"a".to_vec(), b"".to_vec(), b"c".to_vec()]
    );
}

#[test]
fn missing_size_line_on_empty_input() {
    assert!(matches!(
        parse_manifest(&bytes("")),
        Err(ManifestError::MissingSizeLine)
    ));
    assert!(matches!(
        parse_manifest(&bytes("format only\n")),
        Err(ManifestError::MissingSizeLine)
    ));
}

#[test]
fn bad_size_line_cases() {
    assert!(matches!(
        parse_manifest(&bytes("format\nxx,10\n")),
        Err(ManifestError::BadSizeLine)
    ));
    assert!(matches!(
        parse_manifest(&bytes("format\n10\n")),
        Err(ManifestError::BadSizeLine)
    ));
    // every comma-separated field must parse, even past the first two
    assert!(matches!(
        parse_manifest(&bytes("format\n1,2,foo\n")),
        Err(ManifestError::BadSizeLine)
    ));
    // too large for u32
    assert!(matches!(
        parse_manifest(&bytes("format\n4294967296,1\n")),
        Err(ManifestError::BadSizeLine)
    ));
    // a negative number is not a non-negative integer
    assert!(matches!(
        parse_manifest(&bytes("format\n-1,1\n")),
        Err(ManifestError::BadSizeLine)
    ));
}

#[test]
fn size_line_just_within_u32_is_accepted() {
    let f = parse_manifest(&bytes("format\n4294967295,1\n")).unwrap();
    assert_eq!(f.width, u32::MAX);
}

#[test]
fn bad_layer_header_cases() {
    assert!(matches!(
        parse_manifest(&bytes("format\n10,10\nx,2\n")),
        Err(ManifestError::BadLayerHeader)
    ));
    // an improperly blank line where a header is expected
    assert!(matches!(
        parse_manifest(&bytes("format\n10,10\n\n")),
        Err(ManifestError::BadLayerHeader)
    ));
}

#[test]
fn truncated_layer_fails() {
    // header declares rows = 3 but only 2 row lines follow
    let input = bytes("format\n10,10\n2,3\na,b\nc,d\n");
    assert!(matches!(
        parse_manifest(&input),
        Err(ManifestError::TruncatedLayer)
    ));
}

#[test]
fn round_trip_grid_shape() {
    // header cols = 3, rows = 2, each row line with 3 fields
    let input = bytes("format\n10,10\n3,2\na,b,c\nd,e,f\n");
    let f = parse_manifest(&input).unwrap();
    assert_eq!(f.layers[0].tiles.len(), 2);
    assert_eq!(f.layers[0].tiles[0].len(), 3);
    assert_eq!(f.layers[0].tiles[1].len(), 3);
}

#[test]
fn ragged_rows_are_preserved_verbatim() {
    let input = bytes("format\n10,10\n2,2\na,b,c\nd\n");
    let f = parse_manifest(&input).unwrap();
    assert_eq!(f.layers[0].cols, 2);
    assert_eq!(f.layers[0].tiles[0].len(), 3);
    assert_eq!(f.layers[0].tiles[1].len(), 1);
    assert_eq!(f.layers[0].tiles[0][2], b"c".to_vec());
}

#[test]
fn blank_row_line_is_one_empty_cell() {
    // a blank line where a row line is expected is a row of one empty field
    let input = bytes("format\n10,10\n1,2\na\n\n");
    let f = parse_manifest(&input).unwrap();
    assert_eq!(f.layers[0].tiles.len(), 2);
    assert_eq!(f.layers[0].tiles[1], vec![b"".to_vec()]);
}

#[test]
fn lone_carriage_return_does_not_end_a_line() {
    // only a carriage return directly before a line feed ends a line, so a
    // bare one stays inside the tile identifier
    let input = bytes("format\n1,1\n1,1\nx\ry\n");
    let f = parse_manifest(&input).unwrap();
    assert_eq!(f.layers[0].tiles[0], vec![b"x\ry".to_vec()]);
}

#[test]
fn multiple_layers_in_order() {
    let input = bytes("format\n100,100\n2,1\na,b\n1,2\nc\nd\n");
    let f = parse_manifest(&input).unwrap();
    assert_eq!(f.layers.len(), 2);
    assert_eq!(f.layers[0].cols, 2);
    assert_eq!(f.layers[0].rows, 1);
    assert_eq!(f.layers[1].cols, 1);
    assert_eq!(f.layers[1].rows, 2);
    assert_eq!(f.layers[1].tiles[1], vec![b"d".to_vec()]);
}
