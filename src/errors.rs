use vstd::prelude::*;

verus! {

/// Declares `std::io::Error` so that `GameError::Io` can carry one; nothing
/// is assumed of its contents.
#[verifier::external_type_specification]
#[verifier::external_body]
pub struct ExIoError(std::io::Error);

/// What can go wrong while reading the game's input.
#[derive(Debug)]
pub enum GameError {
    Io(std::io::Error),
    ParsePlayerIds(String),
    ParseDimensions(String),
    ParseAnfieldDimensions(String),
    ParseAnfieldBody(String),
    ParsePieceHeader(String),
    ParsePieceDimensions(String),
    ParsePieceBody(String),
    UnexpectedEof(&'static str),
}

} // verus!
