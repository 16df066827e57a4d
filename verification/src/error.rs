//! Error types of the cube model and the notation parser.

use vstd::prelude::*;
use crate::facelets::Color;
use crate::vec3::IVec3;

verus! {

/// Why a move string was rejected.
#[derive(Debug, Clone, PartialEq, Eq)]
pub enum ParseError {
    /// Unexpected character at the given byte position.
    UnexpectedChar(char, usize),
    /// Input ended in the middle of a move.
    UnexpectedEnd,
    /// A layer count of zero.
    InvalidLayerCount(u8),
    /// A layer count not followed by a face symbol.
    ExpectedFaceAfterLayer(usize),
}

/// Why a cube operation failed.
#[derive(Debug, Clone, PartialEq, Eq)]
pub enum CubeError {
    /// Cube size outside `2..=5`.
    InvalidSize(u8),
    /// Move depth exceeds the cube size.
    DepthOutOfRange { depth: u8, size: u8 },
    /// Move depth of zero.
    ZeroDepth,
    /// Facelet array has the wrong length.
    FaceletLength { got: usize, expected: usize },
    /// The facelets do not describe a cube state.
    InvalidFaceletState { reason: String },
}

/// One problem found in a sticker array. Several can be reported at once
/// so that every problem can be shown.
#[derive(Debug, Clone, PartialEq, Eq)]
pub enum FaceletValidationError {
    /// The sticker array has the wrong length.
    BadFaceletLength { got: usize, expected: usize },
    /// A color appears a wrong number of times.
    BadColorCount { color: Color, got: usize, expected: usize },
    /// A piece carries two opposite colors.
    OppositeColorsOnPiece { pos: IVec3, a: Color, b: Color },
    /// A piece carries the same color twice.
    DuplicateColorOnPiece { pos: IVec3, color: Color },
    /// No piece of a solved cube has the colors found at `pos`.
    UnknownCubieAt { pos: IVec3, colors: Vec<Color> },
    /// The corner twists do not sum to a multiple of 3.
    CornerOrientationSum { sum: u32, modulus: u32 },
    /// The edge flips do not sum to a multiple of 2.
    EdgeOrientationSum { sum: u32, modulus: u32 },
    /// Corner and edge permutations have different parities.
    PermParityMismatch { corner_parity: i32, edge_parity: i32 },
    /// The arrangement cannot be reached on a real cube.
    NotReachable,
}

/// Mathematical view of a [`FaceletValidationError`].
pub enum ValidationIssue {
    BadFaceletLength { got: usize, expected: usize },
    BadColorCount { color: Color, got: usize, expected: usize },
    OppositeColorsOnPiece { pos: IVec3, a: Color, b: Color },
    DuplicateColorOnPiece { pos: IVec3, color: Color },
    UnknownCubieAt { pos: IVec3, colors: Seq<Color> },
    CornerOrientationSum { sum: u32, modulus: u32 },
    EdgeOrientationSum { sum: u32, modulus: u32 },
    PermParityMismatch { corner_parity: i32, edge_parity: i32 },
    NotReachable,
}

impl View for FaceletValidationError {
    type V = ValidationIssue;

    open spec fn view(&self) -> ValidationIssue {
        match self {
            FaceletValidationError::BadFaceletLength { got, expected } => ValidationIssue::BadFaceletLength {
                got: *got,
                expected: *expected,
            },
            FaceletValidationError::BadColorCount { color, got, expected } => ValidationIssue::BadColorCount {
                color: *color,
                got: *got,
                expected: *expected,
            },
            FaceletValidationError::OppositeColorsOnPiece { pos, a, b } => ValidationIssue::OppositeColorsOnPiece {
                pos: *pos,
                a: *a,
                b: *b,
            },
            FaceletValidationError::DuplicateColorOnPiece { pos, color } => ValidationIssue::DuplicateColorOnPiece {
                pos: *pos,
                color: *color,
            },
            FaceletValidationError::UnknownCubieAt { pos, colors } => ValidationIssue::UnknownCubieAt {
                pos: *pos,
                colors: colors@,
            },
            FaceletValidationError::CornerOrientationSum { sum, modulus } => ValidationIssue::CornerOrientationSum {
                sum: *sum,
                modulus: *modulus,
            },
            FaceletValidationError::EdgeOrientationSum { sum, modulus } => ValidationIssue::EdgeOrientationSum {
                sum: *sum,
                modulus: *modulus,
            },
            FaceletValidationError::PermParityMismatch { corner_parity, edge_parity } => ValidationIssue::PermParityMismatch {
                corner_parity: *corner_parity,
                edge_parity: *edge_parity,
            },
            FaceletValidationError::NotReachable => ValidationIssue::NotReachable,
        }
    }
}

/// Views of a list of validation errors.
pub open spec fn issues_of(v: Seq<FaceletValidationError>) -> Seq<ValidationIssue> {
    v.map_values(|e: FaceletValidationError| e@)
}

} // verus!
