//! Loading the vector font that glyph outlines are read from.
use ttf_parser::{Face, FaceParsingError};
use vstd::prelude::*;

verus! {

#[verifier::external_type_specification]
#[verifier::external_body]
pub struct ExFace<'a>(Face<'a>);

#[verifier::external_type_specification]
#[verifier::external_body]
pub struct ExFaceParsingError(FaceParsingError);

/// The font data `bytes` holds a face at `index` that ttf-parser accepts:
/// the file has a known magic number, the index is inside the collection,
/// and the required `head`, `hhea` and `maxp` tables are sound.
pub uninterp spec fn face_parses(bytes: Seq<u8>, index: u32) -> bool;

/// `ttf_parser::Face::parse`: parses the face at `index` of the font data.
/// Whether it succeeds is a function of the bytes and the index alone; what
/// the face or the error holds is not stated.
#[verifier::external_body]
fn parse_face(bytes: &'static [u8], index: u32) -> (r: Result<Face<'static>, FaceParsingError>)
    ensures
        r is Ok == face_parses(bytes@, index),
{
    Face::parse(bytes, index)
}

/// Why a font could not be loaded.
pub enum SDFFontError {
    /// The data is no font that ttf-parser accepts.
    Parse(FaceParsingError),
}

/// Parses the first face of the TTF data `bytes`.
pub fn load_face(bytes: &'static [u8]) -> (r: Result<Face<'static>, SDFFontError>)
    ensures
        r is Ok == face_parses(bytes@, 0),
{
    match parse_face(bytes, 0) {
        Ok(face) => Ok(face),
        Err(e) => Err(SDFFontError::Parse(e)),
    }
}

} // verus!
