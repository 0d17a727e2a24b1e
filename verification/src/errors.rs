use vstd::prelude::*;

verus! {

/// Fatal conditions of the processor. Every error is fatal: the engine has an
/// abort-on-error posture with no partial recovery.
#[derive(PartialEq, Eq, Structural, Clone, Copy, Debug)]
pub enum M4Error {
    /// An unrecognized flag, or a numeric flag argument that fails to parse.
    ArgParseError,
    /// A named input, debug, or reload-state file cannot be opened or read.
    IOError,
    /// A malformed reload-state record: bad or missing version, wrong
    /// delimiter-field length, bad length field, or a missing terminator.
    ReloadStateFormatError,
    /// An attempt to set a comment or quote delimiter whose length is not 1.
    UnsupportedDelimiterLength,
    /// Macro re-scan depth exceeded the configured limit.
    NestingLimitExceeded,
}

} // verus!
