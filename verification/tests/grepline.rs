use grug::errors::AppError;
use grug::grepline::GrepLine;

#[test]
fn parses_two_field() {
    let g = GrepLine::parse("src/main.rs:10").unwrap().unwrap();
    assert_eq!(g.path, "src/main.rs");
    assert_eq!(g.line, 10);
    assert_eq!(g.col, None);
    assert_eq!(g.content, None);
}

#[test]
fn parses_three_field_grep_hn() {
    let g = GrepLine::parse("a.rs:3:let x = 1;").unwrap().unwrap();
    assert_eq!(g.line, 3);
    assert_eq!(g.col, None);
    assert_eq!(g.content.as_deref(), Some("let x = 1;"));
}

#[test]
fn parses_four_field_vimgrep() {
    let g = GrepLine::parse("a.rs:3:5:let x = 1;").unwrap().unwrap();
    assert_eq!(g.col, Some(5));
    assert_eq!(g.content.as_deref(), Some("let x = 1;"));
}

#[test]
fn content_may_contain_colons() {
    let g = GrepLine::parse("a.rs:3:5:http://x").unwrap().unwrap();
    assert_eq!(g.col, Some(5));
    assert_eq!(g.content.as_deref(), Some("http://x"));
}

#[test]
fn three_field_content_with_colons_keeps_them() {
    let g = GrepLine::parse("a.rs:3:foo:bar").unwrap().unwrap();
    assert_eq!(g.col, None);
    assert_eq!(g.content.as_deref(), Some("foo:bar"));
}

#[test]
fn blank_line_is_none() {
    assert!(GrepLine::parse("   ").unwrap().is_none());
}

#[test]
fn missing_line_number_errors() {
    assert!(GrepLine::parse("just-a-path").is_err());
    assert!(GrepLine::parse("a.rs:notanumber:x").is_err());
}

#[test]
fn no_colon_is_a_format_error_carrying_the_line() {
    match GrepLine::parse("just-a-path") {
        Err(AppError::InvalidLineFormat(s)) => assert_eq!(s, "just-a-path"),
        _ => panic!("expected a format error"),
    }
}

#[test]
fn bad_number_error_carries_the_field() {
    match GrepLine::parse("a.rs:notanumber:x") {
        Err(AppError::InvalidLineNumber(s)) => assert_eq!(s, "notanumber"),
        _ => panic!("expected a line number error"),
    }
    match GrepLine::parse("a.rs:") {
        Err(AppError::InvalidLineNumber(s)) => assert_eq!(s, ""),
        _ => panic!("expected a line number error"),
    }
}

#[test]
fn line_number_may_carry_a_plus_but_not_overflow() {
    let g = GrepLine::parse("a.rs:+7").unwrap().unwrap();
    assert_eq!(g.line, 7);
    assert!(GrepLine::parse("a.rs:+").is_err());
    assert!(GrepLine::parse("a.rs:-1").is_err());
    assert!(GrepLine::parse("a.rs:99999999999999999999999").is_err());
    let g = GrepLine::parse("a.rs:18446744073709551615").unwrap().unwrap();
    assert_eq!(g.line, usize::MAX);
}

#[test]
fn overlong_column_reads_as_no_column() {
    let g = GrepLine::parse("a.rs:1:99999999999999999999999:x").unwrap().unwrap();
    assert_eq!(g.col, None);
    assert_eq!(g.content.as_deref(), Some("x"));
}

#[test]
fn unicode_whitespace_is_blank() {
    assert!(GrepLine::parse("\u{3000}\t\u{a0} ").unwrap().is_none());
    assert!(GrepLine::parse("").unwrap().is_none());
}

#[test]
fn empty_column_field_is_content() {
    let g = GrepLine::parse("a.rs:2::rest").unwrap().unwrap();
    assert_eq!(g.col, None);
    assert_eq!(g.content.as_deref(), Some(":rest"));
}

#[test]
fn path_with_unicode_round_trips() {
    let g = GrepLine::parse("dïr/ñame.rs:42:1:héllo").unwrap().unwrap();
    assert_eq!(g.path, "dïr/ñame.rs");
    assert_eq!(g.line, 42);
    assert_eq!(g.col, Some(1));
    assert_eq!(g.content.as_deref(), Some("héllo"));
}

#[test]
fn error_messages_name_their_kind() {
    assert_eq!(
        AppError::InvalidNumber("Invalid number of context lines".to_string()).message(),
        "Invalid number: Invalid number of context lines"
    );
    assert_eq!(
        AppError::InvalidLineFormat("x".to_string()).message(),
        "Invalid line format: x"
    );
    assert_eq!(
        AppError::InvalidLineNumber("y".to_string()).message(),
        "Invalid line number: y"
    );
    let io = AppError::from(std::io::Error::new(std::io::ErrorKind::Other, "boom"));
    assert_eq!(io.message(), "IO error: boom");
    let pe = "z".parse::<usize>().unwrap_err();
    let e = AppError::from(pe);
    assert!(e.message().starts_with("Parse int error: "));
}

#[test]
fn third_field_with_a_non_numeric_prefix_keeps_its_colons() {
    let g = GrepLine::parse("a.rs:3:x1:y").unwrap().unwrap();
    assert_eq!(g.col, None);
    assert_eq!(g.content.as_deref(), Some("x1:y"));
}
