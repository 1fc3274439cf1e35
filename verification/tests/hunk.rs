use grug::hunk::{hash_lines, render_header, Hunk};
use grug::hunk_parse::{close_line, parse_header, render_open_lines, render_stream};

fn lines(s: &[&str]) -> Vec<String> {
    s.iter().map(|x| x.to_string()).collect()
}

fn wire(s: &str) -> Vec<String> {
    s.lines().map(String::from).collect()
}

#[test]
fn render_parse_are_inverses() {
    let body = lines(&["fn a() {", "    b();", "}"]);
    let h = Hunk::from_region("src/x.rs".into(), 10, body.clone());
    let rendered = h.render();
    let (parsed, warnings) = Hunk::parse_all(wire(&rendered));
    assert!(warnings.is_empty());
    assert_eq!(parsed.len(), 1);
    let p = &parsed[0];
    assert_eq!(p.path, "src/x.rs");
    assert_eq!(p.start, 10);
    assert_eq!(p.len, 3);
    assert_eq!(p.hash, h.hash);
    assert_eq!(p.body, body);
}

#[test]
fn verify_true_on_unchanged_region() {
    let file = lines(&["0", "1", "2", "3", "4"]);
    let h = Hunk::from_region("f".into(), 2, file[1..4].to_vec());
    assert!(h.verify(&file));
}

#[test]
fn verify_false_on_mutated_region() {
    let file = lines(&["0", "1", "2", "3", "4"]);
    let h = Hunk::from_region("f".into(), 2, file[1..4].to_vec());
    let mutated = lines(&["0", "1", "CHANGED", "3", "4"]);
    assert!(!h.verify(&mutated));
}

#[test]
fn verify_false_when_region_overruns_file() {
    let file = lines(&["0", "1"]);
    let h = Hunk::from_region("f".into(), 1, lines(&["0", "1", "2"]));
    assert!(!h.verify(&file));
}

#[test]
fn path_with_spaces_round_trips() {
    let h = Hunk::from_region("my dir/x.rs".into(), 1, lines(&["a"]));
    let (parsed, w) = Hunk::parse_all(wire(&h.render()));
    assert!(w.is_empty());
    assert_eq!(parsed[0].path, "my dir/x.rs");
}

#[test]
fn malformed_header_warns() {
    let (hunks, warnings) = Hunk::parse_all(lines(&["@@@ garbage", "body"]));
    assert!(hunks.is_empty());
    assert_eq!(warnings.len(), 1);
}

#[test]
fn edited_body_kept_hash_from_header() {
    let h = Hunk::from_region("f".into(), 1, lines(&["orig"]));
    let mut rendered: Vec<String> = wire(&h.render());
    // the user edits the body line (index 1: after the header, before the close)
    rendered[1] = "edited".to_string();
    let (parsed, _) = Hunk::parse_all(rendered);
    assert_eq!(parsed[0].body, lines(&["edited"]));
    assert_eq!(parsed[0].hash, h.hash); // the hash is still the original's
}

#[test]
fn trailing_lines_after_close_are_ignored() {
    let h = Hunk::from_region("f".into(), 1, lines(&["a", "b", "c"]));
    // an editor appends a blank line after the close marker
    let mut w: Vec<String> = wire(&h.render());
    w.push(String::new());
    let (parsed, _) = Hunk::parse_all(w);
    assert_eq!(parsed.len(), 1);
    assert_eq!(parsed[0].body, lines(&["a", "b", "c"])); // no phantom blank line
}

#[test]
fn close_bounds_the_body_between_hunks() {
    let w = lines(&["@@@ f 1,1 0 @@@", "one", "@@@", "", "@@@ f 5,1 0 @@@", "two", "@@@"]);
    let (parsed, _) = Hunk::parse_all(w);
    assert_eq!(parsed.len(), 2);
    assert_eq!(parsed[0].body, lines(&["one"]));
    assert_eq!(parsed[1].body, lines(&["two"]));
}

#[test]
fn render_exact_text() {
    let h = Hunk { path: "a b.rs".into(), start: 12, len: 2, hash: 0xbeef, body: lines(&["x", "y"]) };
    assert_eq!(h.render(), "@@@ a b.rs 12,2 beef @@@\nx\ny\n@@@");
    assert_eq!(render_header(&h), "@@@ a b.rs 12,2 beef @@@");
    let empty = Hunk { path: "p".into(), start: 0, len: 0, hash: 0, body: Vec::new() };
    assert_eq!(empty.render(), "@@@ p 0,0 0 @@@\n@@@");
}

#[test]
fn hash_is_xxh32_of_joined_lines() {
    let body = lines(&["fn a() {", "  héllo", "}"]);
    let expected = xxhash_rust::xxh32::xxh32("fn a() {\n  héllo\n}".as_bytes(), 0);
    assert_eq!(hash_lines(&body), expected);
    let h = Hunk::from_region("f".into(), 3, body);
    assert_eq!(h.hash, expected);
    assert_eq!(h.len, 3);
    assert_eq!(hash_lines(&[]), xxhash_rust::xxh32::xxh32(b"", 0));
    assert_ne!(hash_lines(&lines(&["a", "b"])), hash_lines(&lines(&["ab"])));
}

#[test]
fn header_parse_cases() {
    assert!(parse_header("plain text").is_none());
    let h = parse_header("@@@ my path 3,4 ff @@@").unwrap().unwrap();
    assert_eq!(h.path, "my path");
    assert_eq!((h.start, h.len, h.hash), (3, 4, 255));
    assert!(h.body.is_empty());
    let h = parse_header("@@@ p +3,+4 +FF @@@").unwrap().unwrap();
    assert_eq!((h.start, h.len, h.hash), (3, 4, 255));
    for bad in [
        "@@@",
        "@@@x",
        "@@@ @@@",
        "@@@ p 3,4 @@@",
        "@@@ p 34 ff @@@",
        "@@@ p 3,4 fffffffff @@@",
        "@@@ p 3,x ff @@@",
        "@@@ p 3,4 fg @@@",
        "@@@ p 3,4 ff @@",
    ] {
        match parse_header(bad) {
            Some(Err(w)) => assert_eq!(w, format!("Malformed hunk header: {}", bad)),
            _ => panic!("expected a malformed header: {}", bad),
        }
    }
}

#[test]
fn close_with_whitespace_still_closes() {
    let (parsed, warnings) =
        Hunk::parse_all(lines(&["@@@ f 1,1 0 @@@", "one", "  @@@\t", "stray", "@@@ f 3,1 0 @@@"]));
    assert!(warnings.is_empty());
    assert_eq!(parsed.len(), 2);
    assert_eq!(parsed[0].body, lines(&["one"]));
    assert!(parsed[1].body.is_empty());
}

#[test]
fn malformed_header_closes_open_hunk() {
    let (parsed, warnings) = Hunk::parse_all(lines(&["@@@ f 1,1 0 @@@", "one", "@@@nope", "two"]));
    assert_eq!(parsed.len(), 1);
    assert_eq!(parsed[0].body, lines(&["one"]));
    assert_eq!(warnings, lines(&["Malformed hunk header: @@@nope"]));
}

#[test]
fn stream_has_one_trailing_close_and_reads_back() {
    let file = lines(&["l1", "l2", "l3", "l4", "l5", "l6", "l7", "l8", "l9", "l10"]);
    let hunks = grug::expand::build_hunks("p", &file, &[2, 9], 1, 1);
    assert_eq!(hunks.len(), 2);
    let stream = render_stream(&hunks);
    assert_eq!(stream.iter().filter(|l| l.starts_with("@@@ ")).count(), 2);
    assert_eq!(stream.iter().filter(|l| l.as_str() == "@@@").count(), 1);
    assert_eq!(stream.last().map(String::as_str), Some("@@@"));
    let (parsed, warnings) = Hunk::parse_all(stream);
    assert!(warnings.is_empty());
    assert_eq!(parsed.len(), 2);
    for (a, b) in parsed.iter().zip(hunks.iter()) {
        assert_eq!((&a.path, a.start, a.len, a.hash, &a.body), (&b.path, b.start, b.len, b.hash, &b.body));
    }
    assert!(render_stream(&[]).is_empty());
}

#[test]
fn open_lines_per_file_then_one_close_make_the_stream() {
    let f1 = lines(&["x1", "x2", "x3"]);
    let f2 = lines(&["y1", "y2"]);
    let a = grug::expand::build_hunks("f1", &f1, &[1], 0, 0);
    let b = grug::expand::build_hunks("f2", &f2, &[2], 0, 0);
    let mut printed = render_open_lines(&a);
    printed.extend(render_open_lines(&b));
    printed.push(close_line());
    let mut all = a;
    all.extend(b);
    assert_eq!(printed, render_stream(&all));
    assert_eq!(close_line(), "@@@");
}
