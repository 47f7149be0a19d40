use git_lines::refs::{parse_file_refs, LineRef, ParseError};

fn nz(n: u32) -> u32 {
    n
}

#[test]
fn parse_single_addition() {
    let result = parse_file_refs("flake.nix:137").unwrap();
    assert_eq!(result.file, "flake.nix");
    assert_eq!(result.refs, vec![LineRef::Add(nz(137))]);
}

#[test]
fn parse_addition_range() {
    let result = parse_file_refs("flake.nix:39..43").unwrap();
    assert_eq!(result.file, "flake.nix");
    assert_eq!(result.refs, vec![LineRef::AddRange(nz(39), nz(43))]);
}

#[test]
fn parse_multiple_additions() {
    let result = parse_file_refs("default.nix:40,41").unwrap();
    assert_eq!(result.file, "default.nix");
    assert_eq!(result.refs, vec![LineRef::Add(nz(40)), LineRef::Add(nz(41))]);
}

#[test]
fn parse_single_deletion() {
    let result = parse_file_refs("zsh.nix:-15").unwrap();
    assert_eq!(result.file, "zsh.nix");
    assert_eq!(result.refs, vec![LineRef::Delete(nz(15))]);
}

#[test]
fn parse_deletion_range() {
    let result = parse_file_refs("gtk.nix:-10..-11").unwrap();
    assert_eq!(result.file, "gtk.nix");
    assert_eq!(result.refs, vec![LineRef::DeleteRange(nz(10), nz(11))]);
}

#[test]
fn parse_mixed_refs() {
    let result = parse_file_refs("gtk.nix:-10,-11,12").unwrap();
    assert_eq!(result.file, "gtk.nix");
    assert_eq!(
        result.refs,
        vec![
            LineRef::Delete(nz(10)),
            LineRef::Delete(nz(11)),
            LineRef::Add(nz(12))
        ]
    );
}

#[test]
fn parse_range_with_deletion() {
    let result = parse_file_refs("file.nix:10..15,-20").unwrap();
    assert_eq!(result.file, "file.nix");
    assert_eq!(
        result.refs,
        vec![LineRef::AddRange(nz(10), nz(15)), LineRef::Delete(nz(20))]
    );
}

#[test]
fn parse_invalid_format() {
    assert!(parse_file_refs("no_colon").is_err());
}

#[test]
fn parse_empty_refs() {
    assert!(parse_file_refs("file.nix:").is_err());
}

#[test]
fn parse_empty_file_name() {
    let result = parse_file_refs(":10");
    assert!(matches!(result, Err(ParseError::EmptyFileName { .. })));
}

#[test]
fn parse_empty_file_with_range() {
    let result = parse_file_refs(":10..15");
    assert!(matches!(result, Err(ParseError::EmptyFileName { .. })));
}

#[test]
fn parse_whitespace_file_name() {
    let result = parse_file_refs("  :10");
    assert!(matches!(result, Err(ParseError::EmptyFileName { .. })));
}

#[test]
fn parse_just_colon() {
    let result = parse_file_refs(":");
    assert!(result.is_err());
}

#[test]
fn parse_zero_line_number() {
    let result = parse_file_refs("file.nix:0");
    assert!(matches!(result, Err(ParseError::InvalidLineNumber { .. })));
}

#[test]
fn parse_zero_deletion() {
    let result = parse_file_refs("file.nix:-0");
    assert!(matches!(result, Err(ParseError::InvalidLineNumber { .. })));
}

#[test]
fn parse_zero_in_range_start() {
    let result = parse_file_refs("file.nix:0..10");
    assert!(matches!(result, Err(ParseError::InvalidLineNumber { .. })));
}

#[test]
fn parse_zero_in_range_end() {
    let result = parse_file_refs("file.nix:10..0");
    assert!(matches!(result, Err(ParseError::InvalidLineNumber { .. })));
}

#[test]
fn parse_inverted_range() {
    let result = parse_file_refs("file.nix:15..10");
    assert!(matches!(
        result,
        Err(ParseError::InvalidRange { start: 15, end: 10 })
    ));
}

#[test]
fn parse_inverted_deletion_range() {
    let result = parse_file_refs("file.nix:-15..-10");
    assert!(matches!(
        result,
        Err(ParseError::InvalidRange { start: 15, end: 10 })
    ));
}

#[test]
fn parse_equal_range() {
    let result = parse_file_refs("file.nix:10..10").unwrap();
    assert_eq!(result.refs, vec![LineRef::AddRange(nz(10), nz(10))]);
}

#[test]
fn parse_delete_ref_without_prefix_in_range_end() {
    // A deletion range whose end lacks the `-` prefix is rejected.
    let result = parse_file_refs("file.nix:-10..11");
    assert!(matches!(result, Err(ParseError::InvalidDeleteRef { .. })));
}

#[test]
fn parse_non_numeric() {
    let result = parse_file_refs("file.nix:abc");
    assert!(matches!(result, Err(ParseError::InvalidLineNumber { .. })));
}

#[test]
fn parse_error_messages() {
    assert_eq!(
        parse_file_refs("no_colon").unwrap_err().message(),
        "Invalid format 'no_colon': expected 'file:refs'"
    );
    assert_eq!(
        parse_file_refs(":10").unwrap_err().message(),
        "Invalid format ':10': file name cannot be empty"
    );
    assert_eq!(
        parse_file_refs("file.nix:").unwrap_err().message(),
        "No line references provided"
    );
    assert_eq!(
        parse_file_refs("file.nix:abc").unwrap_err().message(),
        "Invalid line number 'abc'"
    );
    assert_eq!(
        parse_file_refs("file.nix:15..10").unwrap_err().message(),
        "Invalid range 15..10: start must be <= end"
    );
    assert_eq!(
        parse_file_refs("file.nix:-10..11").unwrap_err().message(),
        "Delete reference must start with '-', got '11'"
    );
}

#[test]
fn trim_handles_unicode_whitespace() {
    // A file name that is only a no-break space is as empty as one of
    // ASCII spaces.
    let result = parse_file_refs("\u{a0}:10");
    assert!(matches!(result, Err(ParseError::EmptyFileName { .. })));
    // Unicode whitespace around a reference is trimmed away.
    let ok = parse_file_refs("f.nix:\u{2003}7\u{a0}").unwrap();
    assert_eq!(ok.refs, vec![LineRef::Add(7)]);
}
