//! What numbers and load errors read like.

use crate::io::{FileKind, LoadError};
use crate::messages::load_error_text;
use crate::text::decimal;
use vstd::prelude::*;
use vstd::string::*;

verus! {

/// A number is written digit by digit, the most significant one first and
/// without leading zeros: the digits of `10 * m + d` are those of `m` and then
/// `d`, and a number below ten is one character.
pub proof fn law_decimal_digits(m: nat, d: nat)
    requires
        d < 10,
    ensures
        decimal(d).len() == 1,
        decimal(d)[0] == "0123456789"@[d as int],
        m > 0 ==> decimal(10 * m + d) == decimal(m) + decimal(d),
{
    reveal_strlit("0123456789");
    if m > 0 {
        assert((10 * m + d) / 10 == m && (10 * m + d) % 10 == d);
        assert(decimal(10 * m + d) =~= decimal(m) + decimal(d));
    }
}

/// What the load errors say.
pub proof fn law_load_error_texts(version: u8, n_calib: u32, dim: u32, byte: u8)
    ensures
        load_error_text(LoadError::UnexpectedEof) == "failed to fill whole buffer"@,
        load_error_text(LoadError::WrongMagic(FileKind::Tv))
            == "not a turbovec .tv file: wrong magic"@,
        load_error_text(LoadError::WrongMagic(FileKind::Tvim)) == "not a TVIM file: wrong magic"@,
        load_error_text(LoadError::LegacyFormat(FileKind::Tv)) == "this "@ + ".tv"@
            + " file was written by turbovec ≤ 0.4.3 (format version 1). It is incompatible with turbovec 0.4.4+ because the per-vector scalar's meaning changed. "@
            + "Rebuild this index from the source vectors using turbovec 0.4.4 or later (no in-place migration is provided; the format version 2 changes the meaning of the per-vector scalar from ||v|| to a length-renormalization correction)."@,
        load_error_text(LoadError::LegacyFormat(FileKind::Tvim)) == "this "@ + ".tvim"@
            + " file was written by turbovec ≤ 0.4.3 (format version 1). It is incompatible with turbovec 0.4.4+ because the per-vector scalar's meaning changed. "@
            + "Rebuild this index from the source vectors using turbovec 0.4.4 or later (no in-place migration is provided; the format version 2 changes the meaning of the per-vector scalar from ||v|| to a length-renormalization correction)."@,
        load_error_text(LoadError::UnsupportedVersion { kind: FileKind::Tv, version })
            == "unsupported "@ + ".tv"@ + " format version: "@ + decimal(version as nat)
            + " (this build supports versions 2, 3, and 4)"@,
        load_error_text(LoadError::UnsupportedVersion { kind: FileKind::Tvim, version })
            == "unsupported "@ + ".tvim"@ + " format version: "@ + decimal(version as nat)
            + " (this build supports versions 2, 3, and 4)"@,
        load_error_text(LoadError::InvalidCalibration { n_calib, dim }) == "invalid TQ+ n_calib "@
            + decimal(n_calib as nat) + ": must be 0 or equal to dim "@ + decimal(dim as nat),
        load_error_text(LoadError::UnknownRefineMode(byte)) == "unknown refine mode byte "@
            + decimal(byte as nat)
            + " in v4 file (expected 1=Int8, 2=Float32, or 3=Float16)"@,
{
}

} // verus!
