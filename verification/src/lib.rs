//! A reader for sectioned `key=value` locale files.
//!
//! A locale file is a text of lines:
//!
//! ```text
//! [menu]
//! open=Open
//! close=Close
//!
//! [dialog]
//! open=Really open?
//! ```
//!
//! [`LocaleFile::parse`] turns such a text into a table that maps `menu.open` to
//! `Open`, `menu.close` to `Close` and `dialog.open` to `Really open?`;
//! [`LocaleFile::from_reader`] does the same from bytes in UTF-8, and
//! [`LocaleFile::get`] looks a key up.
//!
//! - Lines are separated by `\n` and by nothing else.
//! - A line that starts with `[` and ends with `]` is a header. It opens the section
//!   named by what stands between the two brackets.
//! - Any other line that holds a `=` is an entry. What stands before the first `=`
//!   is the property, what stands after it is the value, less one trailing carriage
//!   return. The entry is stored under the section's name, a dot, and the property;
//!   before the first header the section's name is empty. A later entry for the same
//!   key replaces an earlier one.
//! - An empty line is skipped.
//! - Any other line makes the file invalid, and no table is returned.
//!
//! [`grammar`] holds this format as a mathematical model, which the contracts of the
//! reader refer to, and [`laws`] holds what has been proved of it.

pub mod error;
pub mod grammar;
pub mod laws;
pub mod table;
mod text;

pub use error::LocaleError;
pub use table::LocaleFile;
