//! Argument records for the PNG chunk command set.

use vstd::prelude::*;

verus! {

/// `std::path::PathBuf`, carried opaquely through argument records.
#[verifier::external_type_specification]
#[verifier::external_body]
pub struct ExPathBuf(std::path::PathBuf);

/// One command with its arguments.
pub enum PngMeArgs {
    Encode(EncodeArgs),
    Decode(DecodeArgs),
    Remove(RemoveArgs),
    Print(PrintArgs),
}

pub struct EncodeArgs {
    pub path: std::path::PathBuf,
    pub chunk_type: String,
    pub data: String,
}

pub struct DecodeArgs {
    pub path: std::path::PathBuf,
    pub chunk_type: String,
}

pub struct RemoveArgs {
    pub path: std::path::PathBuf,
    pub chunk_type: String,
}

pub struct PrintArgs {
    pub path: std::path::PathBuf,
}

} // verus!
