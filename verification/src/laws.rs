//! What holds of every locale file: which keys a table has, and which value each has.
//!
//! The reader walks the lines once and carries the open section with it. The
//! theorems here say the same thing line by line: an entry is keyed by the nearest
//! header above it, the last entry for a key gives its value, a table has no key
//! that no entry binds, and one invalid line anywhere makes the whole file invalid.

use vstd::prelude::*;

use crate::grammar::{
    classify, composite_key, first_index, lemma_first_index, lemma_first_index_is, lines_of,
    parse_text, read_lines, Entries, Line,
};

verus! {

/// The section that is open when line `at` is read: the name in the nearest header
/// above that line, or the empty name when no header stands above it.
pub open spec fn section_at(lines: Seq<Seq<char>>, at: int) -> Seq<char>
    decreases at,
{
    if at <= 0 || at > lines.len() {
        Seq::empty()
    } else {
        match classify(lines[at - 1]) {
            Line::Header { name } => name,
            _ => section_at(lines, at - 1),
        }
    }
}

/// Line `at` is a header.
pub open spec fn header_at(lines: Seq<Seq<char>>, at: int) -> bool {
    0 <= at < lines.len() && classify(lines[at]) is Header
}

/// Line `at` is invalid.
pub open spec fn invalid_at(lines: Seq<Seq<char>>, at: int) -> bool {
    0 <= at < lines.len() && classify(lines[at]) is Invalid
}

/// Line `at` is an entry, and the key that it binds is `key`.
pub open spec fn binds(lines: Seq<Seq<char>>, at: int, key: Seq<char>) -> bool {
    &&& 0 <= at < lines.len()
    &&& classify(lines[at]) matches Line::Entry { property, .. }
    &&& composite_key(section_at(lines, at), property) == key
}

/// The value of the entry in line `at`.
pub open spec fn value_at(lines: Seq<Seq<char>>, at: int) -> Seq<char>
    recommends
        0 <= at < lines.len(),
        classify(lines[at]) is Entry,
{
    classify(lines[at])->value
}

/// The table after the first `n` lines, or `None` when one of them is invalid.
spec fn entries_after(lines: Seq<Seq<char>>, n: int) -> Option<Entries>
    decreases n,
{
    if n <= 0 {
        Some(Map::empty())
    } else {
        match entries_after(lines, n - 1) {
            None => None,
            Some(entries) => match classify(lines[n - 1]) {
                Line::Entry { property, value } => Some(
                    entries.insert(composite_key(section_at(lines, n - 1), property), value),
                ),
                Line::Invalid => None,
                _ => Some(entries),
            },
        }
    }
}

/// Reading all lines is reading the first `n` and then the rest.
proof fn lemma_read_in_two_steps(lines: Seq<Seq<char>>, n: int)
    requires
        0 <= n <= lines.len(),
    ensures
        match entries_after(lines, n) {
            Some(entries) => read_lines(lines, Seq::empty(), Map::empty()) == read_lines(
                lines.skip(n),
                section_at(lines, n),
                entries,
            ),
            None => read_lines(lines, Seq::empty(), Map::empty()) is None,
        },
    decreases n,
{
    if n == 0 {
        assert(lines.skip(0) == lines);
    } else {
        lemma_read_in_two_steps(lines, n - 1);
        if entries_after(lines, n - 1) is Some {
            assert(lines.skip(n - 1).drop_first() == lines.skip(n));
        }
    }
}

/// What the table after the first `n` lines holds.
proof fn lemma_entries_after(lines: Seq<Seq<char>>, n: int)
    requires
        0 <= n <= lines.len(),
    ensures
        entries_after(lines, n) is None <==> exists|at: int| at < n && invalid_at(lines, at),
        entries_after(lines, n) matches Some(entries) ==> {
            &&& forall|key: Seq<char>| #[trigger]
                entries.contains_key(key) <==> exists|at: int| at < n && binds(lines, at, key)
            &&& forall|at: int, key: Seq<char>|
                at < n && #[trigger] binds(lines, at, key) && (forall|later: int|
                    at < later < n ==> !binds(lines, later, key)) ==> entries[key] == value_at(
                    lines,
                    at,
                )
        },
    decreases n,
{
    if n > 0 {
        let last = n - 1;
        lemma_entries_after(lines, last);
        if entries_after(lines, n) is Some {
            let entries = entries_after(lines, n)->0;
            // The last line adds its own key, if it is an entry, and takes none away.
            assert forall|key: Seq<char>| #[trigger]
                entries.contains_key(key) <==> exists|at: int|
                    at < n && binds(lines, at, key) by {
                if !binds(lines, last, key) && exists|at: int| at < n && binds(lines, at, key) {
                    let at = choose|at: int| at < n && binds(lines, at, key);
                    assert(at < last && binds(lines, at, key));
                }
            }
            // An earlier entry keeps its value only where the last line binds another key.
            assert forall|at: int, key: Seq<char>|
                at < n && #[trigger] binds(lines, at, key) && (forall|later: int|
                    at < later < n ==> !binds(lines, later, key)) implies entries[key]
                == value_at(lines, at) by {
                if at < last {
                    assert(!binds(lines, last, key));
                }
            }
        } else if entries_after(lines, last) is Some {
            assert(invalid_at(lines, last));
        }
    }
}

/// The table of a whole file is the table after all of its lines.
proof fn lemma_parse_is_entries_after(text: Seq<char>)
    ensures
        parse_text(text) == entries_after(lines_of(text), lines_of(text).len() as int),
{
    let lines = lines_of(text);
    lemma_read_in_two_steps(lines, lines.len() as int);
}

/// The reader fails if and only if some line is invalid, wherever it stands and
/// whatever the other lines hold.
pub proof fn lemma_fails_on_invalid_line(text: Seq<char>)
    ensures
        parse_text(text) is None <==> exists|at: int| invalid_at(lines_of(text), at),
{
    let lines = lines_of(text);
    let n = lines.len() as int;
    lemma_parse_is_entries_after(text);
    lemma_entries_after(lines, n);
    if exists|at: int| invalid_at(lines, at) {
        let at = choose|at: int| invalid_at(lines, at);
        assert(at < n && invalid_at(lines, at));
    }
}

/// The table of a valid file has a key if and only if some entry binds it: every
/// entry is found under the name of the section that was open at its line, and no
/// key comes from anywhere else.
pub proof fn lemma_keys_are_bound(text: Seq<char>, key: Seq<char>)
    requires
        parse_text(text) is Some,
    ensures
        parse_text(text)->0.contains_key(key) <==> exists|at: int| binds(lines_of(text), at, key),
{
    let lines = lines_of(text);
    let n = lines.len() as int;
    lemma_parse_is_entries_after(text);
    lemma_entries_after(lines, n);
    if exists|at: int| binds(lines, at, key) {
        let at = choose|at: int| binds(lines, at, key);
        assert(at < n && binds(lines, at, key));
    }
}

/// Where several entries bind one key, the last of them gives the value: an entry
/// that no later entry overwrites is the one that the table holds.
pub proof fn lemma_last_entry_wins(text: Seq<char>, at: int, key: Seq<char>)
    requires
        parse_text(text) is Some,
        binds(lines_of(text), at, key),
        forall|later: int| at < later ==> !binds(lines_of(text), later, key),
    ensures
        parse_text(text)->0.contains_key(key),
        parse_text(text)->0[key] == value_at(lines_of(text), at),
{
    let lines = lines_of(text);
    lemma_parse_is_entries_after(text);
    lemma_entries_after(lines, lines.len() as int);
    lemma_keys_are_bound(text, key);
}

/// Below a header, and up to the next one, the open section is the one that the
/// header names.
pub proof fn lemma_section_below_header(lines: Seq<Seq<char>>, header: int, at: int)
    requires
        0 <= header < at <= lines.len(),
        header_at(lines, header),
        forall|between: int| header < between < at ==> !header_at(lines, between),
    ensures
        section_at(lines, at) == classify(lines[header])->name,
    decreases at,
{
    if at - 1 > header {
        assert(!header_at(lines, at - 1));
        lemma_section_below_header(lines, header, at - 1);
    }
}

/// Above the first header the open section has the empty name, so that an entry
/// there is keyed by a dot and its property.
pub proof fn lemma_section_above_headers(lines: Seq<Seq<char>>, at: int)
    requires
        0 <= at <= lines.len(),
        forall|above: int| 0 <= above < at ==> !header_at(lines, above),
    ensures
        section_at(lines, at) == Seq::<char>::empty(),
        forall|property: Seq<char>| #[trigger]
            composite_key(section_at(lines, at), property) == seq!['.'] + property,
    decreases at,
{
    if at > 0 {
        assert(!header_at(lines, at - 1));
        lemma_section_above_headers(lines, at - 1);
    }
    assert forall|property: Seq<char>| #[trigger]
        composite_key(section_at(lines, at), property) == seq!['.'] + property by {
        assert(Seq::<char>::empty() + seq!['.'] == seq!['.']);
    }
}

/// An entry is found under the name of the nearest header above it, whatever other
/// sections the file has opened before.
pub proof fn lemma_entry_below_header(text: Seq<char>, header: int, at: int)
    requires
        parse_text(text) is Some,
        0 <= header < at < lines_of(text).len(),
        header_at(lines_of(text), header),
        forall|between: int| header < between < at ==> !header_at(lines_of(text), between),
        classify(lines_of(text)[at]) is Entry,
    ensures
        parse_text(text)->0.contains_key(
            composite_key(
                classify(lines_of(text)[header])->name,
                classify(lines_of(text)[at])->property,
            ),
        ),
{
    let lines = lines_of(text);
    let key = composite_key(classify(lines[header])->name, classify(lines[at])->property);
    lemma_section_below_header(lines, header, at);
    assert(binds(lines, at, key));
    lemma_keys_are_bound(text, key);
}

/// An entry above the first header is found under a dot and its property: the
/// section with the empty name holds it.
pub proof fn lemma_entry_above_headers(text: Seq<char>, at: int)
    requires
        parse_text(text) is Some,
        0 <= at < lines_of(text).len(),
        forall|above: int| 0 <= above < at ==> !header_at(lines_of(text), above),
        classify(lines_of(text)[at]) is Entry,
    ensures
        parse_text(text)->0.contains_key(seq!['.'] + classify(lines_of(text)[at])->property),
{
    let lines = lines_of(text);
    let property = classify(lines[at])->property;
    let key = seq!['.'] + property;
    lemma_section_above_headers(lines, at);
    assert(binds(lines, at, key));
    lemma_keys_are_bound(text, key);
}

/// The text whose lines are `lines`: the lines in order, with a `\n` between each
/// two neighbours.
pub open spec fn joined(lines: Seq<Seq<char>>) -> Seq<char>
    decreases lines.len(),
{
    if lines.len() == 0 {
        Seq::empty()
    } else if lines.len() == 1 {
        lines[0]
    } else {
        lines[0] + seq!['\n'] + joined(lines.drop_first())
    }
}

/// Splitting loses nothing: a text has at least one line, no line holds a `\n`, and
/// the lines joined again are the text.
pub proof fn lemma_lines_rejoin(text: Seq<char>)
    ensures
        lines_of(text).len() > 0,
        forall|at: int|
            0 <= at < lines_of(text).len() ==> !(#[trigger] lines_of(text)[at]).contains('\n'),
        joined(lines_of(text)) == text,
    decreases text.len(),
{
    let n = first_index(text, '\n');
    lemma_first_index(text, '\n');
    if n < text.len() {
        // The first line stops short of the first `\n`; the others are lines of the rest.
        let head = text.take(n);
        let tail = text.skip(n + 1);
        let rest = lines_of(tail);
        let lines = lines_of(text);
        lemma_lines_rejoin(tail);
        assert(lines == seq![head] + rest);
        assert(lines.drop_first() == rest);
        assert(head + seq!['\n'] + tail == text);
    }
}

/// Splitting finds exactly the lines that were joined: of lines that hold no `\n`,
/// at least one of them, the joined text has those lines and no others.
pub proof fn lemma_lines_of_joined(lines: Seq<Seq<char>>)
    requires
        lines.len() > 0,
        forall|at: int| 0 <= at < lines.len() ==> !(#[trigger] lines[at]).contains('\n'),
    ensures
        lines_of(joined(lines)) == lines,
    decreases lines.len(),
{
    let text = joined(lines);
    let head = lines[0];
    if lines.len() == 1 {
        lemma_first_index_is(text, '\n', text.len() as int);
    } else {
        // The first `\n` of the text is the one that was put behind the first line.
        let rest = lines.drop_first();
        lemma_lines_of_joined(rest);
        lemma_first_index_is(text, '\n', head.len() as int);
        assert(text.take(head.len() as int) == head);
        assert(text.skip(head.len() as int + 1) == joined(rest));
        assert(seq![head] + rest == lines);
    }
}

} // verus!
