use grug::errors::AppError;
use grug::expand::{build_hunks, line_requests, resolve_context};

fn file(n: usize) -> Vec<String> {
    (1..=n).map(|i| format!("line{}", i)).collect()
}

#[test]
fn single_line_gets_context() {
    let h = build_hunks("f", &file(10), &[5], 1, 1);
    assert_eq!(h.len(), 1);
    assert_eq!(h[0].start, 4);
    assert_eq!(h[0].body, vec!["line4", "line5", "line6"]);
}

#[test]
fn adjacent_lines_merge() {
    let h = build_hunks("f", &file(10), &[3, 4], 1, 1);
    assert_eq!(h.len(), 1);
    assert_eq!(h[0].body, vec!["line2", "line3", "line4", "line5"]);
}

#[test]
fn distant_lines_stay_separate() {
    let h = build_hunks("f", &file(20), &[3, 15], 1, 1);
    assert_eq!(h.len(), 2);
}

#[test]
fn clamps_at_file_edges() {
    let h = build_hunks("f", &file(3), &[1], 5, 5);
    assert_eq!(h[0].start, 1);
    assert_eq!(h[0].body, vec!["line1", "line2", "line3"]);
}

#[test]
fn line_past_eof_skipped() {
    assert!(build_hunks("f", &file(3), &[99], 1, 1).is_empty());
}

#[test]
fn touching_regions_merge_and_gaps_split() {
    // regions [2,4] and [5,7] touch: one hunk
    let h = build_hunks("f", &file(20), &[3, 6], 1, 1);
    assert_eq!(h.len(), 1);
    assert_eq!((h[0].start, h[0].len), (2, 6));
    // regions [2,4] and [6,8] leave line 5 out: two hunks
    let h = build_hunks("f", &file(20), &[3, 7], 1, 1);
    assert_eq!(h.len(), 2);
    assert_eq!((h[0].start, h[0].len, h[1].start, h[1].len), (2, 3, 6, 3));
}

#[test]
fn unsorted_duplicate_and_zero_lines() {
    let h = build_hunks("f", &file(30), &[20, 0, 5, 20, 31, 4], 0, 2);
    assert_eq!(h.len(), 2);
    assert_eq!((h[0].start, h[0].len), (4, 4));
    assert_eq!((h[1].start, h[1].len), (20, 3));
    assert_eq!(h[1].body, vec!["line20", "line21", "line22"]);
    assert_eq!(h[0].path, "f");
}

#[test]
fn huge_context_is_clamped_not_overflowed() {
    let h = build_hunks("f", &file(5), &[3], usize::MAX, usize::MAX);
    assert_eq!(h.len(), 1);
    assert_eq!((h[0].start, h[0].len), (1, 5));
}

#[test]
fn hunks_verify_against_their_file() {
    let f = file(12);
    for h in build_hunks("f", &f, &[2, 7, 11], 2, 0) {
        assert!(h.verify(&f));
        assert_eq!(h.body.len(), h.len);
    }
}

#[test]
fn context_defaults_and_overrides() {
    assert_eq!(resolve_context(None, None, None).unwrap(), (1, 1));
    assert_eq!(resolve_context(Some("3"), None, None).unwrap(), (3, 3));
    assert_eq!(resolve_context(Some("3"), Some("0"), None).unwrap(), (0, 3));
    assert_eq!(resolve_context(None, None, Some("9")).unwrap(), (1, 9));
}

#[test]
fn context_errors_say_which_count() {
    let msg = |r: Result<(usize, usize), AppError>| match r {
        Err(AppError::InvalidNumber(m)) => m,
        _ => panic!("expected an invalid number"),
    };
    assert_eq!(msg(resolve_context(Some("x"), Some("1"), Some("1"))), "Invalid number of context lines");
    assert_eq!(msg(resolve_context(None, Some("-1"), None)), "Invalid number of lines above");
    assert_eq!(msg(resolve_context(None, None, Some(""))), "Invalid number of lines below");
}

#[test]
fn requests_from_grep_lines() {
    let input: Vec<String> = ["a.rs:10", "  ", "b.rs:2:x", "nocolon", "a.rs:3:4:z"]
        .iter()
        .map(|s| s.to_string())
        .collect();
    let (reqs, warnings) = line_requests(&input);
    assert_eq!(
        reqs,
        vec![("a.rs".to_string(), 10), ("b.rs".to_string(), 2), ("a.rs".to_string(), 3)]
    );
    assert_eq!(warnings, vec!["Invalid line format: nocolon".to_string()]);
}
