use grug::group::group_by_key;
use grug::hunk::Hunk;
use grug::hunk_parse::render_stream;
use grug::write::{
    apply_changes, apply_changes_reporting, apply_hunks, apply_hunks_reporting, hunks_summary,
    is_hunk_input, lines_summary, raw_changes, Change,
};

fn lines(s: &[&str]) -> Vec<String> {
    s.iter().map(|x| x.to_string()).collect()
}

#[test]
fn hunk_replace_can_grow() {
    let orig = lines(&["a", "b", "c"]);
    let mut h = Hunk::from_region("f".into(), 2, lines(&["b"]));
    h.body = lines(&["b1", "b2"]); // edited to add a line
    let (out, applied, skipped) = apply_hunks(&orig, vec![h], "f");
    assert_eq!(applied, 1);
    assert_eq!(skipped, 0);
    assert_eq!(out, lines(&["a", "b1", "b2", "c"]));
}

#[test]
fn hunk_replace_can_shrink() {
    let orig = lines(&["a", "b", "c", "d"]);
    let mut h = Hunk::from_region("f".into(), 2, lines(&["b", "c"]));
    h.body = lines(&["merged"]);
    let (out, _, _) = apply_hunks(&orig, vec![h], "f");
    assert_eq!(out, lines(&["a", "merged", "d"]));
}

#[test]
fn two_hunks_apply_bottom_up() {
    let orig = lines(&["a", "b", "c", "d", "e"]);
    let mut top = Hunk::from_region("f".into(), 1, lines(&["a"]));
    top.body = lines(&["a1", "a2"]); // grows — must not shift the lower hunk
    let mut bot = Hunk::from_region("f".into(), 4, lines(&["d"]));
    bot.body = lines(&["D"]);
    let (out, applied, _) = apply_hunks(&orig, vec![top, bot], "f");
    assert_eq!(applied, 2);
    assert_eq!(out, lines(&["a1", "a2", "b", "c", "D", "e"]));
}

#[test]
fn stale_hunk_skipped() {
    let orig = lines(&["a", "b", "c"]);
    let mut h = Hunk::from_region("f".into(), 2, lines(&["DIFFERENT"]));
    h.body = lines(&["x"]);
    // the header hash is for "DIFFERENT", the file region is "b": stale
    let (out, applied, skipped) = apply_hunks(&orig, vec![h], "f");
    assert_eq!(applied, 0);
    assert_eq!(skipped, 1);
    assert_eq!(out, orig);
}

#[test]
fn overlapping_hunk_skipped() {
    let orig = lines(&["a", "b", "c", "d"]);
    let outer = Hunk::from_region("f".into(), 1, lines(&["a", "b", "c"]));
    let inner = Hunk::from_region("f".into(), 2, lines(&["b"]));
    // bottom-up: inner (start 2) applies first, outer (start 1, end 4) overlaps it
    let (_, applied, skipped) = apply_hunks(&orig, vec![outer, inner], "f");
    assert_eq!(applied, 1);
    assert_eq!(skipped, 1);
}

#[test]
fn raw_change_replaces_line() {
    let orig = lines(&["a", "b", "c"]);
    let (out, changed, ignored) = apply_changes(&orig, vec![Change(2, "B".into())], "f");
    assert_eq!(changed, 1);
    assert_eq!(ignored, 0);
    assert_eq!(out, lines(&["a", "B", "c"]));
}

#[test]
fn raw_out_of_range_ignored() {
    let orig = lines(&["a"]);
    let (out, changed, ignored) = apply_changes(&orig, vec![Change(9, "x".into())], "f");
    assert_eq!(changed, 0);
    assert_eq!(ignored, 1);
    assert_eq!(out, orig);
}

#[test]
fn warnings_name_the_skipped_hunks() {
    let orig = lines(&["a", "b", "c", "d"]);
    let outer = Hunk::from_region("f.rs".into(), 1, lines(&["a", "b", "c"]));
    let inner = Hunk::from_region("f.rs".into(), 2, lines(&["b"]));
    let stale = Hunk::from_region("f.rs".into(), 4, lines(&["zzz"]));
    let (out, applied, skipped, notes) = apply_hunks_reporting(&orig, vec![outer, inner, stale], "f.rs");
    assert_eq!((applied, skipped), (1, 2));
    assert_eq!(out, orig);
    assert_eq!(
        notes,
        lines(&[
            "Skipping stale hunk at f.rs:4 (file changed since expand)",
            "Skipping overlapping hunk at f.rs:1",
        ])
    );
}

#[test]
fn zero_start_hunk_is_stale_not_a_crash() {
    let orig = lines(&["a"]);
    let h = Hunk { path: "f".into(), start: 0, len: 1, hash: 0, body: lines(&["x"]) };
    let (out, applied, skipped) = apply_hunks(&orig, vec![h], "f");
    assert_eq!((applied, skipped), (0, 1));
    assert_eq!(out, orig);
}

#[test]
fn equal_starts_keep_their_order() {
    let orig = lines(&["a", "b"]);
    let mut first = Hunk::from_region("f".into(), 2, lines(&["b"]));
    first.body = lines(&["first"]);
    let mut second = Hunk::from_region("f".into(), 2, lines(&["b"]));
    second.body = lines(&["second"]);
    let (out, applied, skipped) = apply_hunks(&orig, vec![first, second], "f");
    assert_eq!((applied, skipped), (1, 1));
    assert_eq!(out, lines(&["a", "first"]));
}

#[test]
fn raw_changes_last_write_wins_and_equal_is_ignored() {
    let orig = lines(&["a", "b", "c"]);
    let changes = vec![
        Change(1, "x".into()),
        Change(1, "y".into()),
        Change(3, "c".into()),
        Change(0, "z".into()),
    ];
    let (out, changed, ignored, notes) = apply_changes_reporting(&orig, changes, "f");
    assert_eq!(out, lines(&["y", "b", "c"]));
    assert_eq!((changed, ignored), (2, 2));
    assert_eq!(notes, lines(&["Line number 0 is out of range for file f"]));
}

#[test]
fn detects_hunk_input() {
    assert!(is_hunk_input(&lines(&["x", "@@@ f 1,1 0 @@@"])));
    assert!(is_hunk_input(&lines(&["@@@"])));
    assert!(!is_hunk_input(&lines(&["a.rs:1:x", " @@@"])));
    assert!(!is_hunk_input(&[]));
}

#[test]
fn summaries() {
    assert_eq!(hunks_summary(1, 0), "1 hunks applied, 0 skipped");
    assert_eq!(lines_summary(12, 3), "12 lines changed, 3 lines ignored");
}

#[test]
fn grouping_by_key() {
    let items = vec![
        ("b".to_string(), 1),
        ("a".to_string(), 2),
        ("b".to_string(), 3),
        ("c".to_string(), 4),
        ("a".to_string(), 5),
    ];
    let groups = group_by_key(items);
    assert_eq!(
        groups,
        vec![
            ("b".to_string(), vec![1, 3]),
            ("a".to_string(), vec![2, 5]),
            ("c".to_string(), vec![4]),
        ]
    );
    assert!(group_by_key(Vec::<(String, u8)>::new()).is_empty());
}

#[test]
fn expand_edit_write_in_memory() {
    let file = lines(&["one", "two", "three", "four", "five"]);
    let hunks = grug::expand::build_hunks("sample.txt", &file, &[3], 1, 1);
    let text = render_stream(&hunks).join("\n");
    assert!(text.starts_with("@@@ "));
    let edited = text.replace("three", "THREE\nINSERTED");
    let (parsed, warnings) = Hunk::parse_all(edited.lines().map(String::from).collect());
    assert!(warnings.is_empty());
    let (out, applied, skipped) = apply_hunks(&file, parsed, "sample.txt");
    assert_eq!(hunks_summary(applied, skipped), "1 hunks applied, 0 skipped");
    assert_eq!(out, lines(&["one", "two", "THREE", "INSERTED", "four", "five"]));
}

#[test]
fn raw_line_write_in_memory() {
    let file = lines(&["a", "b", "c"]);
    let g = grug::grepline::GrepLine::parse("sample.txt:2:1:B").unwrap().unwrap();
    let (out, changed, ignored) = apply_changes(&file, vec![Change(g.line, g.content.unwrap())], "sample.txt");
    assert_eq!(lines_summary(changed, ignored), "1 lines changed, 0 lines ignored");
    assert_eq!(out, lines(&["a", "B", "c"]));
}

#[test]
fn unedited_expand_writes_back_the_same_file() {
    let file: Vec<String> = (1..=30).map(|i| format!("l{}", i)).collect();
    let hunks = grug::expand::build_hunks("f", &file, &[3, 4, 12, 29], 2, 1);
    assert_eq!(hunks.len(), 3);
    let (out, applied, skipped) = apply_hunks(&file, hunks, "f");
    assert_eq!((applied, skipped), (3, 0));
    assert_eq!(out, file);
}

#[test]
fn raw_changes_from_grep_lines() {
    let input = lines(&["a.rs:2:1:B", "", "bad", "b.rs:3", "a.rs:x:y", "c.rs:4:k:v"]);
    let (changes, warnings) = raw_changes(&input);
    let seen: Vec<(String, usize, String)> =
        changes.into_iter().map(|(p, Change(n, r))| (p, n, r)).collect();
    assert_eq!(
        seen,
        vec![
            ("a.rs".to_string(), 2, "B".to_string()),
            ("b.rs".to_string(), 3, String::new()),
            ("c.rs".to_string(), 4, "k:v".to_string()),
        ]
    );
    assert_eq!(warnings, lines(&["Invalid line format: bad", "Invalid line number: x"]));
}
