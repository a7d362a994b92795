use std::str::FromStr;

use ls_output::line::{parse_line, ParsedLine};
use ls_output::name::{parse_name, unescape_double_quoted};
use ls_output::text::{parse_i64, precedes};
use ls_output::{Error, ErrorKind, LsOutput};

fn kind_of(input: &str) -> ErrorKind {
    err_of(input).kind
}

fn err_of(input: &str) -> Error {
    match LsOutput::from_str(input) {
        Err(e) => e,
        Ok(_) => panic!("expected an error"),
    }
}

fn chars(s: &str) -> Vec<char> {
    s.chars().collect()
}

#[test]
fn total_header_and_folders_sorted() {
    let input = "total 16\ndrwxr-xr-x 5 u u 4096 Jan 1 12:00 zeta/\ndrwxr-xr-x 5 u u 4096 Jan 1 12:00 alpha/\n";
    let output = LsOutput::from_str(input).unwrap();
    assert_eq!(output.folders, vec!["alpha", "zeta"]);
    assert!(output.files.is_empty());
}

#[test]
fn single_file_with_size() {
    let output = LsOutput::from_str("-rw-r--r-- 1 root root 16 Jan 1 00:01 notes.txt").unwrap();
    assert_eq!(output.files.len(), 1);
    assert_eq!(output.files[0].name, "notes.txt");
    assert_eq!(output.files[0].size_bytes, 16);
}

#[test]
fn broken_line_is_reported_exactly() {
    let err = err_of("broken line");
    assert_eq!(err.line, "broken line");
    assert_eq!(err.kind, ErrorKind::MissingOwner);
    assert_eq!(err.to_string(), "missing owner field in line `broken line`");
}

#[test]
fn single_quoted_unicode_with_space() {
    let output = LsOutput::from_str("-rw-rw-r-- 1 u u 0 Oct 14 10:50 'давай играть'").unwrap();
    assert_eq!(output.files[0].name, "давай играть");
}

#[test]
fn double_quoted_escapes_become_control_characters() {
    let output = LsOutput::from_str("-rw-rw-r-- 1 u u 3 Oct 14 10:50 \"a\\nb\\rc\\td\"").unwrap();
    assert_eq!(output.files[0].name, "a\nb\rc\td");
    assert_eq!(unescape_double_quoted("x\\ny\\\\z\\\"").unwrap(), "x\ny\\z\"");
}

#[test]
fn double_quoted_round_trip() {
    assert_eq!(parse_name("\"tab\\there\\nnew\"").unwrap(), "tab\there\nnew");
    assert_eq!(parse_name("'it''s'").unwrap(), "it''s");
}

#[test]
fn special_modes_are_skipped() {
    let input = "lrwxrwxrwx 1 u u 6 Jan 1 12:04 a -> b\nbrw-rw---- 1 u d 8, 0 Jan 1 12:00 sda\ncrw-rw---- 1 u d 8, 1 Jan 1 12:00 tty\n";
    let output = LsOutput::from_str(input).unwrap();
    assert!(output.files.is_empty());
    assert!(output.folders.is_empty());
}

#[test]
fn short_link_mode_is_not_skipped() {
    assert_eq!(
        kind_of("lrwx 1 u u 8, 0 Jan 1 12:00 sda"),
        ErrorKind::InvalidSize { token: "8,".to_string() }
    );
}

#[test]
fn parsing_twice_gives_the_same_listing() {
    let input = "-rw-r--r-- 1 u u 3 Jan 1 00:01 b\n-rw-r--r-- 1 u u 5 Jan 1 00:01 a\ndrwxr-xr-x 2 u u 4096 Jan 1 00:01 d/\n";
    let a = LsOutput::from_str(input).unwrap();
    let b = LsOutput::from_str(input).unwrap();
    let fa: Vec<(String, i64)> = a.files.iter().map(|f| (f.name.clone(), f.size_bytes)).collect();
    let fb: Vec<(String, i64)> = b.files.iter().map(|f| (f.name.clone(), f.size_bytes)).collect();
    assert_eq!(fa, fb);
    assert_eq!(a.folders, b.folders);
    assert_eq!(fa, vec![("a".to_string(), 5), ("b".to_string(), 3)]);
}

#[test]
fn equal_names_are_kept_in_order() {
    let input = "-rw-r--r-- 1 u u 3 Jan 1 00:01 same\n-rw-r--r-- 1 u u 1 Jan 1 00:01 a\n-rw-r--r-- 1 u u 7 Jan 1 00:01 same\n";
    let out = LsOutput::from_str(input).unwrap();
    let f: Vec<(&str, i64)> = out.files.iter().map(|f| (f.name.as_str(), f.size_bytes)).collect();
    assert_eq!(f, vec![("a", 1), ("same", 3), ("same", 7)]);
}

#[test]
fn dot_entries_are_dropped_even_quoted() {
    let input = "drwxr-xr-x 2 u u 4096 Jan 1 00:01 '.'/\ndrwxr-xr-x 2 u u 4096 Jan 1 00:01 \"..\"/\n-rw-r--r-- 1 u u 1 Jan 1 00:01 .\n";
    let out = LsOutput::from_str(input).unwrap();
    assert!(out.files.is_empty());
    assert!(out.folders.is_empty());
}

#[test]
fn empty_input_and_blank_lines() {
    let out = LsOutput::from_str("").unwrap();
    assert!(out.files.is_empty() && out.folders.is_empty());
    let out = LsOutput::from_str("\n   \n\t\n").unwrap();
    assert!(out.files.is_empty() && out.folders.is_empty());
}

#[test]
fn crlf_marker_and_line_endings() {
    let input = "\\\r\n-rw-r--r-- 1 u u 2 Jan 1 00:01 x\r\ndrwxr-xr-x 2 u u 4096 Jan 1 00:01 y//\r\n";
    let out = LsOutput::from_str(input).unwrap();
    assert_eq!(out.files[0].name, "x");
    assert_eq!(out.files[0].size_bytes, 2);
    assert_eq!(out.folders, vec!["y"]);
}

#[test]
fn marker_is_stripped_only_once() {
    assert_eq!(kind_of("\\\n\\\n-rw-r--r-- 1 u u 2 Jan 1 00:01 x"), ErrorKind::MissingLinkCount);
}

#[test]
fn multiple_spaces_in_names_collapse() {
    let out = LsOutput::from_str("-rw-r--r-- 1 u u 2 Jan 1 00:01 a   b  c").unwrap();
    assert_eq!(out.files[0].name, "a b c");
}

#[test]
fn each_missing_column_has_its_kind() {
    assert_eq!(kind_of("-rw-r--r--"), ErrorKind::MissingLinkCount);
    assert_eq!(kind_of("-rw-r--r-- 1"), ErrorKind::MissingOwner);
    assert_eq!(kind_of("-rw-r--r-- 1 u"), ErrorKind::MissingGroup);
    assert_eq!(kind_of("-rw-r--r-- 1 u g"), ErrorKind::MissingSize);
    assert_eq!(kind_of("-rw-r--r-- 1 u g 5"), ErrorKind::MissingMonth);
    assert_eq!(kind_of("-rw-r--r-- 1 u g 5 Jan"), ErrorKind::MissingDay);
    assert_eq!(kind_of("-rw-r--r-- 1 u g 5 Jan 1"), ErrorKind::MissingTimestamp);
    assert_eq!(kind_of("-rw-r--r-- 1 u g 5 Jan 1 00:00"), ErrorKind::MissingName);
}

#[test]
fn missing_file_mode_from_line_classifier() {
    assert_eq!(parse_line("   ").err(), Some(ErrorKind::MissingFileMode));
    assert!(matches!(parse_line(""), Ok(None)));
    assert!(matches!(parse_line("total 8"), Ok(None)));
}

#[test]
fn invalid_size_keeps_token() {
    assert_eq!(
        kind_of("-rw-r--r-- 1 u g 12x Jan 1 00:00 f"),
        ErrorKind::InvalidSize { token: "12x".to_string() }
    );
    let err = err_of("-rw-r--r-- 1 u g 12x Jan 1 00:00 f");
    assert_eq!(
        err.to_string(),
        "invalid size value `12x` in line `-rw-r--r-- 1 u g 12x Jan 1 00:00 f`"
    );
}

#[test]
fn empty_quoted_names() {
    assert_eq!(kind_of("-rw-r--r-- 1 u g 5 Jan 1 00:00 ''"), ErrorKind::EmptyQuotedName);
    assert_eq!(kind_of("-rw-r--r-- 1 u g 5 Jan 1 00:00 \"\""), ErrorKind::EmptyQuotedName);
    assert_eq!(kind_of("drwxr-xr-x 1 u g 5 Jan 1 00:00 ''/"), ErrorKind::EmptyQuotedName);
}

#[test]
fn slash_only_name_is_missing() {
    assert_eq!(kind_of("drwxr-xr-x 1 u g 5 Jan 1 00:00 //"), ErrorKind::MissingName);
}

#[test]
fn trailing_backslash_is_invalid_escape() {
    assert_eq!(kind_of("-rw-r--r-- 1 u g 5 Jan 1 00:00 \"ab\\\""), ErrorKind::InvalidEscapeSequence);
    assert_eq!(unescape_double_quoted("ab\\"), Err(ErrorKind::InvalidEscapeSequence));
}

#[test]
fn first_bad_line_wins() {
    let input = "-rw-r--r-- 1 u g x Jan 1 00:00 a\n  broken line  \n";
    let err = err_of(input);
    assert_eq!(err.line, "-rw-r--r-- 1 u g x Jan 1 00:00 a");
    let err = err_of("-rw-r--r-- 1 u g 1 Jan 1 00:00 a\n  broken line  \n");
    assert_eq!(err.line, "broken line");
}

#[test]
fn sizes_at_the_limits() {
    assert_eq!(parse_i64(&chars("9223372036854775807")), Some(i64::MAX));
    assert_eq!(parse_i64(&chars("-9223372036854775808")), Some(i64::MIN));
    assert_eq!(parse_i64(&chars("9223372036854775808")), None);
    assert_eq!(parse_i64(&chars("+17")), Some(17));
    assert_eq!(parse_i64(&chars("-")), None);
    assert_eq!(parse_i64(&chars("")), None);
    assert_eq!(parse_i64(&chars("99999999999999999999999")), None);
    let out = LsOutput::from_str("-rw-r--r-- 1 u g -3 Jan 1 00:00 neg").unwrap();
    assert_eq!(out.files[0].size_bytes, -3);
}

#[test]
fn names_order_by_code_point() {
    assert!(precedes("B", "a"));
    assert!(precedes("ab", "abc"));
    assert!(!precedes("abc", "abc"));
    assert!(precedes("z", "é"));
    assert!(!precedes("文件", "файл"));
}

#[test]
fn parse_line_gives_entries() {
    match parse_line("drwxr-xr-x 2 u u 4096 Jan 1 00:01 \"a b\"/") {
        Ok(Some(ParsedLine::Folder(n))) => assert_eq!(n, "a b"),
        _ => panic!("expected a folder"),
    }
    match parse_line("-rw-r--r-- 1 u u 9 Jan 1 00:01 f") {
        Ok(Some(ParsedLine::File(f))) => {
            assert_eq!(f.name, "f");
            assert_eq!(f.size_bytes, 9);
        }
        _ => panic!("expected a file"),
    }
}

#[test]
fn description_of_kinds() {
    assert_eq!(ErrorKind::MissingName.description(), "missing file name");
    assert_eq!(
        ErrorKind::InvalidSize { token: "q".to_string() }.description(),
        "invalid size value `q`"
    );
    let e = Error::new(ErrorKind::EmptyQuotedName, "l".to_string());
    assert_eq!(e.to_string(), "empty quoted file name in line `l`");
}
