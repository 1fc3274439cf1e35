//! Previewing what writing a hunk would change: a line diff of the file's
//! current region against the edited body.

use vstd::prelude::*;

use crate::hunk::{fits, header_line, hunk_matches, region, render_header, Hunk, HunkView};
use crate::text::{
    chars_of, decimal, join_lines, join_strings, lemma_join_lines_injective, push_char, push_radix,
    single_lines, terminated_lines, terminated_strings, views,
};
use crate::write::{apply_hunks_spec, lemma_apply_one, stale_message, stale_note};

verus! {

broadcast use vstd::string::group_string_axioms;

/// What a diff line is: kept, removed from the old text, or added by the new.
pub enum DiffTag {
    Equal,
    Delete,
    Insert,
}

/// The changes of a line diff of `old` against `new`, each with its tag and
/// its text (the line with its `'\n'`, when it had one), as
/// `similar::TextDiff::from_lines(old, new).iter_all_changes()` yields them.
pub uninterp spec fn line_diff(old: Seq<char>, new: Seq<char>) -> Seq<(DiffTag, Seq<char>)>;

pub open spec fn change_pairs(v: Seq<(DiffTag, String)>) -> Seq<(DiffTag, Seq<char>)> {
    v.map_values(|p: (DiffTag, String)| (p.0, p.1@))
}

/// `similar::TextDiff::from_lines(old, new).iter_all_changes()`, each change
/// taken as its tag and its value. The diff has no deadline, so it is a
/// function of the two texts; the contract names that function and claims
/// nothing more of it.
#[verifier::external_body]
fn diff_changes(old: &str, new: &str) -> (res: Vec<(DiffTag, String)>)
    ensures
        change_pairs(res@) == line_diff(old@, new@),
{
    let diff = similar::TextDiff::from_lines(old, new);
    let mut out = Vec::new();
    for change in diff.iter_all_changes() {
        let tag = match change.tag() {
            similar::ChangeTag::Equal => DiffTag::Equal,
            similar::ChangeTag::Delete => DiffTag::Delete,
            similar::ChangeTag::Insert => DiffTag::Insert,
        };
        out.push((tag, change.value().to_string()));
    }
    out
}

/// The text printed for one change: nothing for a kept line; `-` or `+`,
/// the line, and a `'\n'` unless the line already ends with one.
pub open spec fn change_text(tag: DiffTag, value: Seq<char>) -> Seq<char> {
    let sign = match tag {
        DiffTag::Delete => '-',
        _ => '+',
    };
    if value.len() > 0 && value.last() == '\n' {
        seq![sign] + value
    } else {
        seq![sign] + value + seq!['\n']
    }
}

/// The printed texts of the changes that are not kept lines, in order.
pub open spec fn diff_text(changes: Seq<(DiffTag, Seq<char>)>) -> Seq<Seq<char>>
    decreases changes.len(),
{
    if changes.len() == 0 {
        Seq::empty()
    } else {
        let rest = diff_text(changes.drop_last());
        match changes.last().0 {
            DiffTag::Equal => rest,
            _ => rest.push(change_text(changes.last().0, changes.last().1)),
        }
    }
}

/// The texts to print for a list of changes: each removed line as `-line`,
/// each added line as `+line`, each ending in one `'\n'`; kept lines are
/// left out.
pub fn format_changes(changes: &Vec<(DiffTag, String)>) -> (res: Vec<String>)
    ensures
        views(res@) == diff_text(change_pairs(changes@)),
{
    let mut res: Vec<String> = Vec::new();
    let n = changes.len();
    let mut i: usize = 0;
    while i < n
        invariant
            i <= n == changes@.len(),
            views(res@) == diff_text(change_pairs(changes@.take(i as int))),
        decreases n - i,
    {
        let ghost prev = change_pairs(changes@.take(i as int));
        let ghost cur = change_pairs(changes@.take(i + 1));
        assert(cur.drop_last() =~= prev);
        assert(cur.last() == (changes@[i as int].0, changes@[i as int].1@));
        let (tag, value) = (&changes[i].0, &changes[i].1);
        let sign = match tag {
            DiffTag::Equal => None,
            DiffTag::Delete => Some('-'),
            DiffTag::Insert => Some('+'),
        };
        if let Some(sign) = sign {
            let cs = chars_of(value.as_str());
            let mut text = String::new();
            push_char(&mut text, sign);
            text.append(value.as_str());
            if !(cs.len() > 0 && cs[cs.len() - 1] == '\n') {
                push_char(&mut text, '\n');
            }
            assert(text@ =~= change_text(*tag, value@));
            let ghost before = res@;
            res.push(text);
            assert(views(res@) =~= views(before).push(text@));
        }
        i = i + 1;
    }
    assert(changes@.take(n as int) =~= changes@);
    res
}

/// The printed line diff of `old` against `new`.
pub fn diff_lines(old: &str, new: &str) -> (res: Vec<String>)
    ensures
        views(res@) == diff_text(line_diff(old@, new@)),
{
    let changes = diff_changes(old, new);
    format_changes(&changes)
}

/// What previewing a hunk shows.
pub enum Preview {
    /// The hunk's region lies outside the file; the warning says where.
    DoesNotFit(String),
    /// The file's region no longer hashes as the header says, so writing
    /// would skip the hunk; the warning says where.
    Stale(String),
    /// The edited body equals the file's region.
    Unchanged,
    /// The header line, then the texts of the diff.
    Changed(String, Vec<String>),
}

pub enum PreviewView {
    DoesNotFit(Seq<char>),
    Stale(Seq<char>),
    Unchanged,
    Changed(Seq<char>, Seq<Seq<char>>),
}

impl View for Preview {
    type V = PreviewView;

    open spec fn view(&self) -> PreviewView {
        match self {
            Preview::DoesNotFit(s) => PreviewView::DoesNotFit(s@),
            Preview::Stale(s) => PreviewView::Stale(s@),
            Preview::Unchanged => PreviewView::Unchanged,
            Preview::Changed(h, d) => PreviewView::Changed(h@, views(d@)),
        }
    }
}

pub open spec fn misfit_note(path: Seq<char>, start: usize) -> Seq<char> {
    "Hunk at "@ + path + seq![':'] + decimal(start as nat) + " does not fit the file"@
}

/// What previewing `h` against `file` shows, as writing would decide: a
/// misfit warning; the stale warning that writing gives when the region no
/// longer hashes as the header says; nothing when the region (lines joined
/// with `'\n'`) equals the body; else the header and the line diff of the
/// region against the body, each line ended by `'\n'`.
pub open spec fn preview_spec(h: HunkView, file: Seq<Seq<char>>) -> PreviewView {
    if !fits(h.start, h.len, file.len()) {
        PreviewView::DoesNotFit(misfit_note(h.path, h.start))
    } else if !hunk_matches(h, file) {
        PreviewView::Stale(stale_note(h.path, h.start))
    } else if join_lines(region(file, h.start, h.len)) == join_lines(h.body) {
        PreviewView::Unchanged
    } else {
        PreviewView::Changed(
            header_line(h.path, h.start, h.len, h.hash),
            diff_text(
                line_diff(terminated_lines(region(file, h.start, h.len)), terminated_lines(h.body)),
            ),
        )
    }
}

/// Compare the file's current region under `hunk` with its edited body.
pub fn preview_hunk(hunk: &Hunk, file_lines: &[String]) -> (res: Preview)
    ensures
        res@ == preview_spec(hunk@, views(file_lines@)),
{
    if hunk.start == 0 || hunk.len > file_lines.len() || hunk.start - 1 > file_lines.len()
        - hunk.len {
        let mut note = String::new();
        note.append("Hunk at ");
        note.append(hunk.path.as_str());
        push_char(&mut note, ':');
        push_radix(&mut note, hunk.start as u64, 10);
        note.append(" does not fit the file");
        assert(note@ =~= misfit_note(hunk.path@, hunk.start));
        return Preview::DoesNotFit(note);
    }
    let lo = hunk.start - 1;
    let region_lines = &file_lines[lo..lo + hunk.len];
    assert(views(region_lines@) =~= region(views(file_lines@), hunk.start, hunk.len));
    if !hunk.verify(file_lines) {
        return Preview::Stale(stale_message(hunk.path.as_str(), hunk.start));
    }
    let old = join_strings(region_lines);
    let new = join_strings(hunk.body.as_slice());
    if old == new {
        Preview::Unchanged
    } else {
        let old_text = terminated_strings(region_lines);
        let new_text = terminated_strings(hunk.body.as_slice());
        Preview::Changed(render_header(hunk), diff_lines(old_text.as_str(), new_text.as_str()))
    }
}

/// Previewing a hunk shows a diff, or shows it unchanged, exactly when
/// writing that hunk to the same file would apply it; a stale or misfit
/// hunk, which writing skips, gets only a warning.
pub proof fn law_preview_agrees_with_write(h: HunkView, file: Seq<Seq<char>>, note_path: Seq<char>)
    requires
        file.len() <= usize::MAX,
    ensures
        (preview_spec(h, file) is Changed || preview_spec(h, file) is Unchanged)
            <==> apply_hunks_spec(file, seq![h], note_path).applied == 1,
{
    lemma_apply_one(file, h, note_path);
}

/// The edited body of a hunk holds the same lines as the file's region:
/// equal line for line, or an empty region against one empty line (the two
/// join to the same empty text).
pub open spec fn same_lines(body: Seq<Seq<char>>, reg: Seq<Seq<char>>) -> bool {
    ||| body == reg
    ||| reg.len() == 0 && body == seq![Seq::<char>::empty()]
    ||| body.len() == 0 && reg == seq![Seq::<char>::empty()]
}

/// A hunk that fits the file and is not stale previews as unchanged exactly
/// when its edited body holds the same lines as the file's region, and
/// shows a diff as soon as any line differs, wherever in the hunk it
/// stands (lines holding no `'\n'`, as lines read from a file do).
pub proof fn law_preview_unchanged_iff_same_lines(h: HunkView, file: Seq<Seq<char>>)
    requires
        hunk_matches(h, file),
        single_lines(region(file, h.start, h.len)),
        single_lines(h.body),
    ensures
        preview_spec(h, file) is Unchanged <==> same_lines(h.body, region(file, h.start, h.len)),
        preview_spec(h, file) is Changed <==> !same_lines(h.body, region(file, h.start, h.len)),
{
    let reg = region(file, h.start, h.len);
    if join_lines(reg) == join_lines(h.body) {
        lemma_join_lines_injective(h.body, reg);
    }
    if h.body.len() == 0 && reg == seq![Seq::<char>::empty()] {
        assert(join_lines(reg) == Seq::<char>::empty());
    }
    if reg.len() == 0 && h.body == seq![Seq::<char>::empty()] {
        assert(join_lines(h.body) == Seq::<char>::empty());
    }
}

} // verus!
