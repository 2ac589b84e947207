use locale_file::{LocaleError, LocaleFile};

fn table(text: &str) -> LocaleFile {
    match LocaleFile::parse(text) {
        Ok(file) => file,
        Err(error) => panic!("{:?}", error),
    }
}

fn value<'a>(file: &'a LocaleFile, key: &str) -> Option<&'a str> {
    file.get(key).map(|v| v.as_str())
}

#[test]
fn round_trip_basic_case() {
    let file = table("[greeting]\nhello=Hi there!\n");
    assert_eq!(value(&file, "greeting.hello"), Some("Hi there!"));
    assert_eq!(file.entries.len(), 1);
}

#[test]
fn multiple_sections() {
    let file = table("[menu]\nopen=Open\nclose=Close\n[dialog]\nopen=Really open?\nok=OK\n");
    assert_eq!(value(&file, "menu.open"), Some("Open"));
    assert_eq!(value(&file, "menu.close"), Some("Close"));
    assert_eq!(value(&file, "dialog.open"), Some("Really open?"));
    assert_eq!(value(&file, "dialog.ok"), Some("OK"));
    assert_eq!(value(&file, "menu.ok"), None);
    assert_eq!(value(&file, "dialog.close"), None);
    assert_eq!(file.entries.len(), 4);
}

#[test]
fn section_can_be_reopened() {
    let file = table("[a]\nx=1\n[b]\nx=2\n[a]\ny=3");
    assert_eq!(value(&file, "a.x"), Some("1"));
    assert_eq!(value(&file, "b.x"), Some("2"));
    assert_eq!(value(&file, "a.y"), Some("3"));
    assert_eq!(file.entries.len(), 3);
}

#[test]
fn duplicate_keys() {
    let file = table("[s]\nk=first\nother=x\nk=second\nk=third\n");
    assert_eq!(value(&file, "s.k"), Some("third"));
    assert_eq!(value(&file, "s.other"), Some("x"));
    assert_eq!(file.entries.len(), 2);
}

#[test]
fn duplicate_keys_across_reopened_section() {
    let file = table("[s]\nk=old\n[t]\nk=other\n[s]\nk=new\n");
    assert_eq!(value(&file, "s.k"), Some("new"));
    assert_eq!(value(&file, "t.k"), Some("other"));
    assert_eq!(file.entries.len(), 2);
}

#[test]
fn no_section_declared() {
    let file = table("title=Untitled\n[s]\ntitle=Named\n");
    assert_eq!(value(&file, ".title"), Some("Untitled"));
    assert_eq!(value(&file, "s.title"), Some("Named"));
    assert_eq!(value(&file, "title"), None);
    assert_eq!(file.entries.len(), 2);
}

#[test]
fn invalid_line() {
    assert!(matches!(
        LocaleFile::parse("[s]\nk=v\nthis is no entry\nj=w\n"),
        Err(LocaleError::InvalidLocaleFile)
    ));
}

#[test]
fn invalid_line_at_either_end() {
    assert!(matches!(LocaleFile::parse("oops\n[s]\nk=v"), Err(LocaleError::InvalidLocaleFile)));
    assert!(matches!(LocaleFile::parse("[s]\nk=v\noops"), Err(LocaleError::InvalidLocaleFile)));
}

#[test]
fn unfinished_header_is_invalid() {
    assert!(matches!(LocaleFile::parse("[s\nk=v\n"), Err(LocaleError::InvalidLocaleFile)));
    assert!(matches!(LocaleFile::parse("s]\nk=v\n"), Err(LocaleError::InvalidLocaleFile)));
    assert!(matches!(LocaleFile::parse("["), Err(LocaleError::InvalidLocaleFile)));
    assert!(matches!(LocaleFile::parse("]"), Err(LocaleError::InvalidLocaleFile)));
}

#[test]
fn line_of_spaces_is_invalid() {
    assert!(matches!(LocaleFile::parse("[s]\n  \nk=v"), Err(LocaleError::InvalidLocaleFile)));
    assert!(matches!(LocaleFile::parse(" "), Err(LocaleError::InvalidLocaleFile)));
}

#[test]
fn backslash_and_letter_are_no_blank_line() {
    assert!(matches!(LocaleFile::parse("\\n"), Err(LocaleError::InvalidLocaleFile)));
    assert!(matches!(LocaleFile::parse("k=v\n\\n\n"), Err(LocaleError::InvalidLocaleFile)));
}

#[test]
fn empty_input() {
    let file = table("");
    assert_eq!(file.entries.len(), 0);
    assert!(file.entries.is_empty());
    assert_eq!(value(&file, ""), None);
}

#[test]
fn blank_lines_are_skipped() {
    let file = table("\n\n[s]\n\nk=v\n\n\n[t]\n\nj=w\n\n");
    assert_eq!(value(&file, "s.k"), Some("v"));
    assert_eq!(value(&file, "t.j"), Some("w"));
    assert_eq!(file.entries.len(), 2);
}

#[test]
fn only_headers_give_an_empty_table() {
    let file = table("[a]\n[b]\n[c]");
    assert_eq!(file.entries.len(), 0);
}

#[test]
fn missing_key_lookup() {
    let file = table("[s]\nk=v\n");
    assert_eq!(value(&file, "s.k"), Some("v"));
    assert_eq!(value(&file, "s.j"), None);
    assert_eq!(value(&file, "k"), None);
    assert_eq!(value(&file, "s."), None);
    assert_eq!(value(&file, "s.k "), None);
}

#[test]
fn header_name_loses_only_its_brackets() {
    let file = table("[name]\nk=v");
    assert_eq!(value(&file, "name.k"), Some("v"));
    assert_eq!(value(&file, "nam.k"), None);
}

#[test]
fn header_may_be_empty_or_hold_any_character() {
    let file = table("[]\na=1\n[x=y]\nb=2\n[[z]]\nc=3\n[ p q ]\nd=4");
    assert_eq!(value(&file, ".a"), Some("1"));
    assert_eq!(value(&file, "x=y.b"), Some("2"));
    assert_eq!(value(&file, "[z].c"), Some("3"));
    assert_eq!(value(&file, " p q .d"), Some("4"));
    assert_eq!(file.entries.len(), 4);
}

#[test]
fn value_keeps_its_last_character() {
    let file = table("[s]\na=x\nb=xy");
    assert_eq!(value(&file, "s.a"), Some("x"));
    assert_eq!(value(&file, "s.b"), Some("xy"));
}

#[test]
fn value_starts_after_the_first_separator() {
    let file = table("[s]\na=b=c\nd==\n=e\nf=");
    assert_eq!(value(&file, "s.a"), Some("b=c"));
    assert_eq!(value(&file, "s.d"), Some("="));
    assert_eq!(value(&file, "s."), Some("e"));
    assert_eq!(value(&file, "s.f"), Some(""));
    assert_eq!(file.entries.len(), 4);
}

#[test]
fn value_loses_one_trailing_carriage_return() {
    let file = table("a=one\r\nb=two\r\r\nc=\r\nd=th\rree\ne\r=x");
    assert_eq!(value(&file, ".a"), Some("one"));
    assert_eq!(value(&file, ".b"), Some("two\r"));
    assert_eq!(value(&file, ".c"), Some(""));
    assert_eq!(value(&file, ".d"), Some("th\rree"));
    assert_eq!(value(&file, ".e\r"), Some("x"));
    assert_eq!(file.entries.len(), 5);
}

#[test]
fn carriage_return_after_a_header_is_invalid() {
    assert!(matches!(LocaleFile::parse("[s]\r\nk=v\r\n"), Err(LocaleError::InvalidLocaleFile)));
    assert!(matches!(LocaleFile::parse("k=v\r\n\r\n"), Err(LocaleError::InvalidLocaleFile)));
}

#[test]
fn bracketed_line_with_separator_is_a_header() {
    let file = table("[k=v]\n");
    assert_eq!(file.entries.len(), 0);
    let file = table("[k=v\n");
    assert_eq!(value(&file, ".[k"), Some("v"));
    let file = table("k=v]\n");
    assert_eq!(value(&file, ".k"), Some("v]"));
}

#[test]
fn text_beyond_ascii() {
    let file = table("[gr\u{fc}\u{df}e]\nhallo=Gr\u{fc}\u{df} dich \u{1f44b}\n\u{540d}\u{524d}=\u{4e16}\u{754c}\n");
    assert_eq!(value(&file, "gr\u{fc}\u{df}e.hallo"), Some("Gr\u{fc}\u{df} dich \u{1f44b}"));
    assert_eq!(value(&file, "gr\u{fc}\u{df}e.\u{540d}\u{524d}"), Some("\u{4e16}\u{754c}"));
    assert_eq!(file.entries.len(), 2);
}

#[test]
fn lookup_gives_the_value_of_a_present_key() {
    let file = table("[s]\nk=v\nj=w");
    assert_eq!(file.get(&String::from("s.k")), Some(&String::from("v")));
    assert_eq!(file.get(&String::from("s.j")), Some(&String::from("w")));
}

#[test]
fn lookup_leaves_the_table_as_it_was() {
    let file = table("[s]\nk=v\nj=w");
    assert_eq!(value(&file, "s.missing"), None);
    assert_eq!(value(&file, "s.k"), Some("v"));
    assert_eq!(value(&file, "s.missing"), None);
    assert_eq!(value(&file, "s.j"), Some("w"));
    assert_eq!(file.entries.len(), 2);
}
