use rubiks_trainer::error::ParseError;
use rubiks_trainer::moves::{Face, Move, MoveSeq, Turn};

fn parse(s: &str) -> MoveSeq {
    MoveSeq::parse(s, 3).unwrap()
}

#[test]
fn parse_simple_face_turn() {
    assert_eq!(parse("R").0, vec![Move::face(Face::R, Turn::Cw)]);
}

#[test]
fn parse_inverse() {
    assert_eq!(parse("R'").0, vec![Move::face(Face::R, Turn::Ccw)]);
}

#[test]
fn parse_half() {
    assert_eq!(parse("R2").0, vec![Move::face(Face::R, Turn::Half)]);
}

#[test]
fn parse_sequence_with_whitespace() {
    assert_eq!(parse("R U R' U'").0.len(), 4);
}

#[test]
fn parse_wide_uppercase() {
    assert_eq!(parse("Rw").0, vec![Move { face: Face::R, turn: Turn::Cw, depth: 2, wide: true }]);
}

#[test]
fn parse_wide_lowercase() {
    assert_eq!(parse("r").0, vec![Move { face: Face::R, turn: Turn::Cw, depth: 2, wide: true }]);
}

#[test]
fn parse_layered_wide() {
    let seq = MoveSeq::parse("3Rw", 5).unwrap();
    assert_eq!(seq.0, vec![Move { face: Face::R, turn: Turn::Cw, depth: 3, wide: true }]);
}

#[test]
fn parse_slice_only() {
    let seq = MoveSeq::parse("2R", 4).unwrap();
    assert_eq!(seq.0, vec![Move { face: Face::R, turn: Turn::Cw, depth: 2, wide: false }]);
}

#[test]
fn parse_middle_slice_m() {
    assert_eq!(parse("M").0, vec![Move { face: Face::L, turn: Turn::Cw, depth: 2, wide: false }]);
}

#[test]
fn parse_cube_rotation_x() {
    assert_eq!(parse("x").0, vec![Move { face: Face::R, turn: Turn::Cw, depth: 3, wide: true }]);
}

#[test]
fn parse_cube_rotation_y_prime() {
    assert_eq!(parse("y'").0, vec![Move { face: Face::U, turn: Turn::Ccw, depth: 3, wide: true }]);
}

#[test]
fn empty_string_parses_to_empty_seq() {
    assert!(parse("").is_empty());
    assert!(parse("   ").is_empty());
}

#[test]
fn lowercase_with_layer_count_is_rejected() {
    assert!(MoveSeq::parse("2r", 3).is_err());
}

#[test]
fn unknown_character_is_rejected() {
    assert!(MoveSeq::parse("Q", 3).is_err());
}

#[test]
fn round_trip_basic() {
    let original = "R U R' U' R U2 Rw F'";
    let seq = MoveSeq::parse(original, 3).unwrap();
    let printed = seq.to_notation();
    let reparsed = MoveSeq::parse(&printed, 3).unwrap();
    assert_eq!(seq, reparsed);
}

#[test]
fn pretty_print_canonical_forms() {
    let m1 = Move::face(Face::R, Turn::Cw);
    let m2 = Move { face: Face::R, turn: Turn::Half, depth: 1, wide: false };
    let m3 = Move { face: Face::R, turn: Turn::Cw, depth: 2, wide: true };
    let m4 = Move { face: Face::R, turn: Turn::Ccw, depth: 3, wide: true };
    let m5 = Move { face: Face::R, turn: Turn::Cw, depth: 2, wide: false };
    let seq = MoveSeq::from_vec(vec![m1, m2, m3, m4, m5]);
    assert_eq!(seq.to_notation(), "R R2 Rw 3Rw' 2R");
}

#[test]
fn inverse_round_trips() {
    let seq = parse("R U R' U' F2 R");
    let inv = seq.inverse();
    let mut v = seq.0.clone();
    v.extend(inv.0);
    assert!(MoveSeq::from_vec(v).cancel().is_empty());
}

#[test]
fn notation_round_trip_of_slices_and_rotations() {
    let seq = MoveSeq::parse("M E' S2 x y2 z' 2L 3Fw2", 5).unwrap();
    let printed = seq.to_notation();
    assert_eq!(MoveSeq::parse(&printed, 5).unwrap(), seq);
}

#[test]
fn parse_errors_name_their_position() {
    assert_eq!(MoveSeq::parse("R Q", 3), Err(ParseError::UnexpectedChar('Q', 2)));
    assert_eq!(MoveSeq::parse("0R", 3), Err(ParseError::InvalidLayerCount(0)));
    assert_eq!(MoveSeq::parse("2 R", 3), Err(ParseError::UnexpectedChar(' ', 1)));
    assert_eq!(MoveSeq::parse("R ", 3).map(|s| s.len()), Ok(1));
    assert_eq!(MoveSeq::parse("2", 3), Err(ParseError::UnexpectedEnd));
}
