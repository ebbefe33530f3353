use vstd::prelude::*;

verus! {

/// Faults that stop production: an I/O failure on a byte source, a file that
/// cannot be opened or created, a broken pager pipe, a bad option value, or
/// a timestamp that does not parse.
#[derive(Debug)]
pub enum Error {
    Io,
    CannotOpenFile,
    CannotCreateFile,
    CannotUseLessStdin,
    InvalidCliOptionValue(&'static str),
    CannotParseTimestamp,
}

} // verus!
