//! The locale table and the reader that builds it.

use vstd::hash_map::StringHashMap;
use vstd::prelude::*;
use vstd::utf8::{decode_utf8, valid_utf8};

use crate::error::LocaleError;
use crate::grammar::{
    classify, composite_key, is_header, lines_of, parse_text, read_lines,
    without_carriage_return, Entries, Line,
};
use crate::text::{append_range, chars_of, decode, find};

verus! {

/// Holds the key-value pairs of a locale file.
pub struct LocaleFile {
    /// Key: composite key (`section.property`). Item: locale string.
    pub entries: StringHashMap<String>,
}

impl View for LocaleFile {
    type V = Entries;

    /// The table as a map from composite key to value, both as character sequences.
    open spec fn view(&self) -> Entries {
        self.entries@.map_values(|value: String| value@)
    }
}

/// What reading the bytes of a source yields: the table, or the reason for failure.
/// Bytes that are not well-formed UTF-8 are no text at all; a text with an invalid
/// line is no locale file.
pub open spec fn read_outcome(bytes: Seq<u8>) -> Result<Entries, LocaleError> {
    if !valid_utf8(bytes) {
        Err(LocaleError::FilesystemError)
    } else {
        match parse_text(decode_utf8(bytes)) {
            Some(entries) => Ok(entries),
            None => Err(LocaleError::InvalidLocaleFile),
        }
    }
}

/// Reads the line `chars[start..end]` with the section `chars[section.0..section.1]`
/// open. Returns the section that is open after the line, or `None` when the line is
/// invalid; an entry is bound in `file`.
fn read_line(
    file: &mut LocaleFile,
    chars: &[char],
    section: (usize, usize),
    start: usize,
    end: usize,
) -> (next: Option<(usize, usize)>)
    requires
        section.0 <= section.1 <= chars@.len(),
        start <= end <= chars@.len(),
    ensures
        match classify(chars@.subrange(start as int, end as int)) {
            Line::Header { name } => next matches Some(s) && s.0 <= s.1 <= chars@.len()
                && chars@.subrange(s.0 as int, s.1 as int) == name && final(file)@ == old(file)@,
            Line::Entry { property, value } => next == Some(section) && final(file)@ == old(
                file,
            )@.insert(
                composite_key(chars@.subrange(section.0 as int, section.1 as int), property),
                value,
            ),
            Line::Blank => next == Some(section) && final(file)@ == old(file)@,
            Line::Invalid => next is None && final(file)@ == old(file)@,
        },
{
    let ghost line = chars@.subrange(start as int, end as int);
    if start < end && chars[start] == '[' && chars[end - 1] == ']' {
        proof {
            assert(is_header(line));
            assert(line.subrange(1, line.len() - 1) == chars@.subrange(start + 1, end - 1));
        }
        return Some((start + 1, end - 1));
    }
    assert(!is_header(line));
    let sep = find(chars, start, end, '=');
    if sep < end {
        let stop = if chars[end - 1] == '\r' && sep + 1 < end {
            end - 1
        } else {
            end
        };
        let mut key = String::new();
        append_range(&mut key, chars, section.0, section.1);
        key.push('.');
        append_range(&mut key, chars, start, sep);
        let mut value = String::new();
        append_range(&mut value, chars, sep + 1, stop);
        proof {
            // Property and value as the model cuts them out of the line.
            let tail = line.skip(sep - start + 1);
            assert(line.take(sep - start) == chars@.subrange(start as int, sep as int));
            assert(tail == chars@.subrange(sep + 1, end as int));
            assert(without_carriage_return(tail) == chars@.subrange(sep + 1, stop as int));
            assert(key@ == composite_key(
                chars@.subrange(section.0 as int, section.1 as int),
                line.take(sep - start),
            ));
            // Binding the string binds its characters.
            assert(old(file)@.insert(key@, value@) == old(file).entries@.insert(
                key@,
                value,
            ).map_values(|value: String| value@));
        }
        file.entries.insert(key, value);
        Some(section)
    } else if start == end {
        Some(section)
    } else {
        None
    }
}

impl LocaleFile {
    /// Builds the table from the bytes of a locale file.
    ///
    /// Fails with `FilesystemError` when the bytes are not well-formed UTF-8, and with
    /// `InvalidLocaleFile` when a line of the text is neither a header, nor an entry,
    /// nor empty. No table is returned in either case.
    pub fn from_reader(reader: &[u8]) -> (result: Result<LocaleFile, LocaleError>)
        ensures
            match result {
                Ok(file) => read_outcome(reader@) == Ok::<Entries, LocaleError>(file@),
                Err(error) => read_outcome(reader@) == Err::<Entries, LocaleError>(error),
            },
    {
        match decode(reader) {
            Some(chars) => Self::parse_chars(chars.as_slice()),
            None => Err(LocaleError::FilesystemError),
        }
    }

    /// Builds the table from the text of a locale file.
    ///
    /// Fails with `InvalidLocaleFile` exactly when a line of `text` is invalid.
    pub fn parse(text: &str) -> (result: Result<LocaleFile, LocaleError>)
        ensures
            match result {
                Ok(file) => parse_text(text@) == Some(file@),
                Err(error) => error == LocaleError::InvalidLocaleFile && parse_text(text@) is None,
            },
    {
        let chars = chars_of(text);
        Self::parse_chars(chars.as_slice())
    }

    /// Builds the table from the characters of a locale file.
    fn parse_chars(chars: &[char]) -> (result: Result<LocaleFile, LocaleError>)
        ensures
            match result {
                Ok(file) => parse_text(chars@) == Some(file@),
                Err(error) => error == LocaleError::InvalidLocaleFile && parse_text(chars@) is None,
            },
    {
        let len = chars.len();
        let mut file = LocaleFile { entries: StringHashMap::new() };
        let mut section: (usize, usize) = (0, 0);
        let mut start: usize = 0;
        proof {
            assert(chars@.skip(0) == chars@);
            assert(chars@.subrange(0, 0) == Seq::<char>::empty());
            assert(file@ == Map::<Seq<char>, Seq<char>>::empty());
        }
        loop
            invariant
                len == chars@.len(),
                start <= len,
                section.0 <= section.1 <= len,
                parse_text(chars@) == read_lines(
                    lines_of(chars@.skip(start as int)),
                    chars@.subrange(section.0 as int, section.1 as int),
                    file@,
                ),
            decreases len - start,
        {
            let end = find(chars, start, len, '\n');
            let ghost rest = chars@.skip(start as int);
            let ghost line = chars@.subrange(start as int, end as int);
            proof {
                // The line and what follows it, as the model splits the rest of the text.
                assert(rest == chars@.subrange(start as int, len as int));
                assert(rest.take(end - start) == line);
                if end < len {
                    let later = lines_of(chars@.skip(end + 1));
                    assert(rest.skip(end - start + 1) == chars@.skip(end + 1));
                    assert(lines_of(rest) == seq![line] + later);
                    assert((seq![line] + later).first() == line);
                    assert((seq![line] + later).drop_first() == later);
                } else {
                    assert(rest == line);
                    assert(lines_of(rest) == seq![line]);
                }
            }
            match read_line(&mut file, chars, section, start, end) {
                Some(next) => {
                    section = next;
                },
                None => {
                    return Err(LocaleError::InvalidLocaleFile);
                },
            }
            if end == len {
                proof {
                    // The line was the last one: nothing is left to read.
                    assert(lines_of(rest) == seq![line]);
                    assert(seq![line].first() == line);
                    assert(seq![line].drop_first() == Seq::<Seq<char>>::empty());
                    reveal_with_fuel(read_lines, 2);
                }
                return Ok(file);
            }
            start = end + 1;
        }
    }

    /// Looks up the value stored under the composite key `key`.
    ///
    /// `None` exactly when the table holds no such key: a missing key is an answer, not
    /// a failure, and the table is the same after the call as before it.
    pub fn get(&self, key: &str) -> (found: Option<&String>)
        ensures
            match found {
                Some(value) => self@.contains_key(key@) && value@ == self@[key@],
                None => !self@.contains_key(key@),
            },
    {
        self.entries.get(key)
    }
}

} // verus!
