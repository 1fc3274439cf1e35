use grug::hunk::Hunk;
use grug::preview::{diff_lines, format_changes, preview_hunk, DiffTag, Preview};

fn lines(s: &[&str]) -> Vec<String> {
    s.iter().map(|x| x.to_string()).collect()
}

#[test]
fn format_changes_signs_and_newlines() {
    let changes = vec![
        (DiffTag::Equal, "same\n".to_string()),
        (DiffTag::Delete, "old\n".to_string()),
        (DiffTag::Insert, "new".to_string()),
    ];
    assert_eq!(format_changes(&changes), lines(&["-old\n", "+new\n"]));
    assert!(format_changes(&vec![(DiffTag::Equal, "x".to_string())]).is_empty());
}

#[test]
fn diff_of_a_changed_line() {
    assert_eq!(diff_lines("a\nb\nc", "a\nB\nc"), lines(&["-b\n", "+B\n"]));
    assert_eq!(diff_lines("a", "a\nz"), lines(&["-a\n", "+a\n", "+z\n"]));
    assert!(diff_lines("same", "same").is_empty());
}

#[test]
fn preview_outcomes() {
    let file = lines(&["a", "b", "c"]);
    let mut h = Hunk::from_region("f".into(), 2, lines(&["b"]));
    assert!(matches!(preview_hunk(&h, &file), Preview::Unchanged));
    h.body = lines(&["B"]);
    match preview_hunk(&h, &file) {
        Preview::Changed(header, diff) => {
            assert_eq!(header, format!("@@@ f 2,1 {:x} @@@", h.hash));
            assert_eq!(diff, lines(&["-b\n", "+B\n"]));
        }
        _ => panic!("expected a change"),
    }
    let far = Hunk { path: "f".into(), start: 3, len: 2, hash: 0, body: Vec::new() };
    match preview_hunk(&far, &file) {
        Preview::DoesNotFit(m) => assert_eq!(m, "Hunk at f:3 does not fit the file"),
        _ => panic!("expected a misfit"),
    }
}

#[test]
fn stale_hunk_previews_only_a_warning() {
    let file = lines(&["a", "CHANGED", "c"]);
    let mut h = Hunk::from_region("f".into(), 2, lines(&["b"]));
    h.body = lines(&["B"]);
    match preview_hunk(&h, &file) {
        Preview::Stale(m) => assert_eq!(m, "Skipping stale hunk at f:2 (file changed since expand)"),
        _ => panic!("expected a stale hunk"),
    }
    let (_, applied, skipped) = grug::write::apply_hunks(&file, vec![h], "f");
    assert_eq!((applied, skipped), (0, 1));
}

#[test]
fn appended_lines_diff_only_the_new_ones() {
    let file = lines(&["a", "b"]);
    let mut h = Hunk::from_region("f".into(), 1, lines(&["a", "b"]));
    h.body = lines(&["a", "b", "z"]);
    match preview_hunk(&h, &file) {
        Preview::Changed(_, diff) => assert_eq!(diff, lines(&["+z\n"])),
        _ => panic!("expected a change"),
    }
}
