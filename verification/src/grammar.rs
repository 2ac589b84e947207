//! The format of a locale file, as a mathematical model.
//!
//! A file is a text of lines separated by `\n`. A line `[name]` opens the
//! section `name`; a line `property=value` binds the key `section.property`
//! to `value` in the section that is open at that point; an empty line is
//! skipped. Any other line makes the whole file invalid.

use vstd::prelude::*;

verus! {

/// The contents of a locale table: values by composite key.
pub type Entries = Map<Seq<char>, Seq<char>>;

/// The position of the first `c` in `s`, or `s.len()` when `s` holds none.
pub open spec fn first_index(s: Seq<char>, c: char) -> int
    decreases s.len(),
{
    if s.len() == 0 || s[0] == c {
        0
    } else {
        1 + first_index(s.drop_first(), c)
    }
}

/// The lines of `text`: the pieces between its `\n` characters, in order.
/// A text with `n` newlines has `n + 1` lines, some of which may be empty.
pub open spec fn lines_of(text: Seq<char>) -> Seq<Seq<char>>
    decreases text.len(),
{
    let n = first_index(text, '\n');
    if 0 <= n < text.len() {
        seq![text.take(n)] + lines_of(text.skip(n + 1))
    } else {
        seq![text]
    }
}

/// What a single line means.
pub enum Line {
    /// `[name]`: opens the section `name`.
    Header { name: Seq<char> },
    /// `property=value`: binds `property` in the open section.
    Entry { property: Seq<char>, value: Seq<char> },
    /// An empty line.
    Blank,
    /// Anything else.
    Invalid,
}

/// A header starts with `[` and ends with `]`.
pub open spec fn is_header(line: Seq<char>) -> bool {
    line.len() > 0 && line.first() == '[' && line.last() == ']'
}

/// `s` without one trailing carriage return, if it ends in one.
pub open spec fn without_carriage_return(s: Seq<char>) -> Seq<char> {
    if s.len() > 0 && s.last() == '\r' {
        s.drop_last()
    } else {
        s
    }
}

/// The meaning of `line`. A header is recognised first, so `[a=b]` opens the
/// section `a=b`. In an entry the first `=` separates property and value: the
/// value keeps any further `=`, and loses one trailing carriage return.
pub open spec fn classify(line: Seq<char>) -> Line {
    let sep = first_index(line, '=');
    if is_header(line) {
        Line::Header { name: line.subrange(1, line.len() - 1) }
    } else if 0 <= sep < line.len() {
        Line::Entry {
            property: line.take(sep),
            value: without_carriage_return(line.skip(sep + 1)),
        }
    } else if line.len() == 0 {
        Line::Blank
    } else {
        Line::Invalid
    }
}

/// The key under which `property` is stored while `section` is open.
pub open spec fn composite_key(section: Seq<char>, property: Seq<char>) -> Seq<char> {
    section + seq!['.'] + property
}

/// Reads `lines` in order, starting with `section` open and `entries`
/// already bound. `None` as soon as a line is invalid.
pub open spec fn read_lines(lines: Seq<Seq<char>>, section: Seq<char>, entries: Entries) -> Option<
    Entries,
>
    decreases lines.len(),
{
    if lines.len() == 0 {
        Some(entries)
    } else {
        match classify(lines.first()) {
            Line::Header { name } => read_lines(lines.drop_first(), name, entries),
            Line::Entry { property, value } => read_lines(
                lines.drop_first(),
                section,
                entries.insert(composite_key(section, property), value),
            ),
            Line::Blank => read_lines(lines.drop_first(), section, entries),
            Line::Invalid => None,
        }
    }
}

/// The table that `text` describes, or `None` when one of its lines is
/// invalid. Reading starts in the section with the empty name.
pub open spec fn parse_text(text: Seq<char>) -> Option<Entries> {
    read_lines(lines_of(text), Seq::empty(), Map::empty())
}

/// `first_index` finds an occurrence, and nothing before it matches.
pub proof fn lemma_first_index(s: Seq<char>, c: char)
    ensures
        0 <= first_index(s, c) <= s.len(),
        first_index(s, c) < s.len() ==> s[first_index(s, c)] == c,
        forall|j: int| 0 <= j < first_index(s, c) ==> s[j] != c,
    decreases s.len(),
{
    if s.len() == 0 || s[0] == c {
    } else {
        let rest = s.drop_first();
        lemma_first_index(rest, c);
        assert forall|j: int| 0 <= j < first_index(s, c) implies s[j] != c by {
            if j > 0 {
                assert(s[j] == rest[j - 1]);
            }
        }
    }
}

/// A position that holds `c`, or the end, with no `c` before it, is the one
/// that `first_index` gives.
pub proof fn lemma_first_index_is(s: Seq<char>, c: char, at: int)
    requires
        0 <= at <= s.len(),
        at < s.len() ==> s[at] == c,
        forall|j: int| 0 <= j < at ==> s[j] != c,
    ensures
        first_index(s, c) == at,
{
    lemma_first_index(s, c);
}

} // verus!
