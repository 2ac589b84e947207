//! The ways in which reading a locale file can fail.

use vstd::prelude::*;

verus! {

/// Why a locale file could not be turned into a table.
#[derive(Debug, Clone, Copy, PartialEq, Eq, Structural)]
pub enum LocaleError {
    /// A line is neither a section header, nor an entry, nor blank.
    InvalidLocaleFile,
    /// The source could not be read as text.
    FilesystemError,
}

} // verus!
