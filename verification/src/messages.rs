//! What load errors say.

use crate::io::{FileKind, LoadError};
use crate::text::{decimal, push_decimal};
use vstd::prelude::*;
use vstd::string::*;

verus! {

/// The extension of the file kind.
pub open spec fn label_text(kind: FileKind) -> Seq<char> {
    match kind {
        FileKind::Tv => ".tv"@,
        FileKind::Tvim => ".tvim"@,
    }
}

/// What to do about a file of format version 1.
pub open spec fn rebuild_hint() -> Seq<char> {
    "Rebuild this index from the source vectors using turbovec 0.4.4 or later (no in-place migration is provided; the format version 2 changes the meaning of the per-vector scalar from ||v|| to a length-renormalization correction)."@
}

/// The text of a load error.
pub open spec fn load_error_text(e: LoadError) -> Seq<char> {
    match e {
        LoadError::UnexpectedEof => "failed to fill whole buffer"@,
        LoadError::WrongMagic(FileKind::Tv) => "not a turbovec .tv file: wrong magic"@,
        LoadError::WrongMagic(FileKind::Tvim) => "not a TVIM file: wrong magic"@,
        LoadError::LegacyFormat(kind) => "this "@ + label_text(kind)
            + " file was written by turbovec ≤ 0.4.3 (format version 1). It is incompatible with turbovec 0.4.4+ because the per-vector scalar's meaning changed. "@
            + rebuild_hint(),
        LoadError::UnsupportedVersion { kind, version } => "unsupported "@ + label_text(kind)
            + " format version: "@ + decimal(version as nat)
            + " (this build supports versions 2, 3, and 4)"@,
        LoadError::InvalidCalibration { n_calib, dim } => "invalid TQ+ n_calib "@ + decimal(
            n_calib as nat,
        ) + ": must be 0 or equal to dim "@ + decimal(dim as nat),
        LoadError::UnknownRefineMode(byte) => "unknown refine mode byte "@ + decimal(byte as nat)
            + " in v4 file (expected 1=Int8, 2=Float32, or 3=Float16)"@,
    }
}

fn label(kind: FileKind) -> (s: &'static str)
    ensures
        s@ == label_text(kind),
{
    match kind {
        FileKind::Tv => ".tv",
        FileKind::Tvim => ".tvim",
    }
}

impl LoadError {
    /// The bytes are there, but are not what they should be.
    pub fn is_invalid_data(&self) -> (r: bool)
        ensures
            r == (*self != LoadError::UnexpectedEof),
    {
        match self {
            LoadError::UnexpectedEof => false,
            _ => true,
        }
    }

    /// What the error says.
    pub fn message(&self) -> (s: String)
        ensures
            s@ == load_error_text(*self),
    {
        match *self {
            LoadError::UnexpectedEof => "failed to fill whole buffer".to_owned(),
            LoadError::WrongMagic(FileKind::Tv) => "not a turbovec .tv file: wrong magic".to_owned(),
            LoadError::WrongMagic(FileKind::Tvim) => "not a TVIM file: wrong magic".to_owned(),
            LoadError::LegacyFormat(kind) => {
                let mut s = "this ".to_owned();
                s.append(label(kind));
                s.append(
                    " file was written by turbovec ≤ 0.4.3 (format version 1). It is incompatible with turbovec 0.4.4+ because the per-vector scalar's meaning changed. ",
                );
                s.append(
                    "Rebuild this index from the source vectors using turbovec 0.4.4 or later (no in-place migration is provided; the format version 2 changes the meaning of the per-vector scalar from ||v|| to a length-renormalization correction).",
                );
                s
            },
            LoadError::UnsupportedVersion { kind, version } => {
                let mut s = "unsupported ".to_owned();
                s.append(label(kind));
                s.append(" format version: ");
                push_decimal(&mut s, version as u64);
                s.append(" (this build supports versions 2, 3, and 4)");
                s
            },
            LoadError::InvalidCalibration { n_calib, dim } => {
                let mut s = "invalid TQ+ n_calib ".to_owned();
                push_decimal(&mut s, n_calib as u64);
                s.append(": must be 0 or equal to dim ");
                push_decimal(&mut s, dim as u64);
                s
            },
            LoadError::UnknownRefineMode(byte) => {
                let mut s = "unknown refine mode byte ".to_owned();
                push_decimal(&mut s, byte as u64);
                s.append(" in v4 file (expected 1=Int8, 2=Float32, or 3=Float16)");
                s
            },
        }
    }
}

} // verus!
