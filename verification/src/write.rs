//! Writing edits back: splicing edited hunks into a file, and replacing
//! single lines from raw grep lines.

use vstd::prelude::*;

use crate::expand::{hunks_of_file, spaced_hunks};
use crate::grepline::{grep_views, parse_lines, parse_warnings, parsed_lines, GrepLineView};
use crate::hunk::{
    close_marker, fits, hunk_matches, hunk_views, region, region_hunk, Hunk, HunkView,
};
use crate::text::{chars_of, decimal, has_prefix, push_radix, starts_with, views};

verus! {

broadcast use vstd::string::group_string_axioms;

// ---------------------------------------------------------------------------
// Input kind
// ---------------------------------------------------------------------------

/// Whether any line begins with `@@@`: such input is edited hunks, anything
/// else raw grep lines.
pub fn is_hunk_input(input: &[String]) -> (b: bool)
    ensures
        b == exists|i: int| 0 <= i < input@.len() && has_prefix(#[trigger] input@[i]@, close_marker()),
{
    let marker = vec!['@', '@', '@'];
    assert(marker@ =~= close_marker());
    let mut i: usize = 0;
    while i < input.len()
        invariant
            i <= input@.len(),
            marker@ == close_marker(),
            forall|j: int| 0 <= j < i ==> !has_prefix(#[trigger] input@[j]@, close_marker()),
        decreases input@.len() - i,
    {
        let cs = chars_of(input[i].as_str());
        if starts_with(&cs, &marker) {
            return true;
        }
        i = i + 1;
    }
    false
}

// ---------------------------------------------------------------------------
// Hunks, bottom-up
// ---------------------------------------------------------------------------

/// Inserts `h` after every hunk whose start is not below its own.
pub open spec fn insert_by_start_desc(s: Seq<HunkView>, h: HunkView) -> Seq<HunkView>
    decreases s.len(),
{
    if s.len() == 0 {
        seq![h]
    } else if s[0].start < h.start {
        seq![h] + s
    } else {
        seq![s[0]] + insert_by_start_desc(s.drop_first(), h)
    }
}

/// The hunks ordered by descending start; hunks with equal starts keep
/// their order (a stable sort).
pub open spec fn sort_by_start_desc(s: Seq<HunkView>) -> Seq<HunkView>
    decreases s.len(),
{
    if s.len() == 0 {
        s
    } else {
        insert_by_start_desc(sort_by_start_desc(s.drop_last()), s.last())
    }
}

/// Where splicing stands: the file so far, the counts, the lowest
/// index already spliced, and the warnings.
pub struct ApplyState {
    pub out: Seq<Seq<char>>,
    pub applied: nat,
    pub skipped: nat,
    pub lowest: int,
    pub notes: Seq<Seq<char>>,
}

pub open spec fn stale_note(path: Seq<char>, start: usize) -> Seq<char> {
    "Skipping stale hunk at "@ + path + seq![':'] + decimal(start as nat)
        + " (file changed since expand)"@
}

pub open spec fn overlap_note(path: Seq<char>, start: usize) -> Seq<char> {
    "Skipping overlapping hunk at "@ + path + seq![':'] + decimal(start as nat)
}

/// One hunk, against the file `orig` as it was read: a stale hunk is skipped; a
/// hunk reaching into a region already spliced is skipped; any other has
/// its region replaced by its body.
pub open spec fn apply_step(
    st: ApplyState,
    h: HunkView,
    orig: Seq<Seq<char>>,
    path: Seq<char>,
) -> ApplyState {
    if !hunk_matches(h, orig) {
        ApplyState {
            skipped: st.skipped + 1,
            notes: st.notes.push(stale_note(path, h.start)),
            ..st
        }
    } else if h.start - 1 + h.len > st.lowest {
        ApplyState {
            skipped: st.skipped + 1,
            notes: st.notes.push(overlap_note(path, h.start)),
            ..st
        }
    } else {
        ApplyState {
            out: st.out.take(h.start - 1) + h.body + st.out.skip(h.start - 1 + h.len),
            applied: st.applied + 1,
            lowest: h.start - 1,
            ..st
        }
    }
}

pub open spec fn apply_run(
    st: ApplyState,
    hs: Seq<HunkView>,
    orig: Seq<Seq<char>>,
    path: Seq<char>,
) -> ApplyState
    decreases hs.len(),
{
    if hs.len() == 0 {
        st
    } else {
        apply_step(apply_run(st, hs.drop_last(), orig, path), hs.last(), orig, path)
    }
}

/// The outcome of applying `hs` to `orig`: hunks taken bottom-up (highest
/// start first) against the coordinates of the file as read.
pub open spec fn apply_hunks_spec(
    orig: Seq<Seq<char>>,
    hs: Seq<HunkView>,
    path: Seq<char>,
) -> ApplyState {
    apply_run(
        ApplyState {
            out: orig,
            applied: 0,
            skipped: 0,
            lowest: usize::MAX as int,
            notes: Seq::empty(),
        },
        sort_by_start_desc(hs),
        orig,
        path,
    )
}

proof fn lemma_insert_at(s: Seq<HunkView>, h: HunkView, p: int)
    requires
        0 <= p <= s.len(),
        forall|a: int| 0 <= a < p ==> (#[trigger] s[a]).start >= h.start,
        p < s.len() ==> s[p].start < h.start,
    ensures
        insert_by_start_desc(s, h) == s.insert(p, h),
    decreases p,
{
    if p == 0 {
        if s.len() == 0 {
            assert(s.insert(0, h) =~= seq![h]);
        } else {
            assert(s.insert(0, h) =~= seq![h] + s);
        }
    } else {
        let t = s.drop_first();
        assert forall|a: int| 0 <= a < p - 1 implies (#[trigger] t[a]).start >= h.start by {
            assert(t[a] == s[a + 1]);
        }
        lemma_insert_at(t, h, p - 1);
        assert(s.insert(p, h) =~= seq![s[0]] + t.insert(p - 1, h));
    }
}

/// Orders hunks by descending start, keeping the order of equal starts.
fn sort_hunks(mut hunks: Vec<Hunk>) -> (sorted: Vec<Hunk>)
    ensures
        hunk_views(sorted@) == sort_by_start_desc(hunk_views(hunks@)),
{
    let ghost input = hunk_views(hunks@);
    let mut sorted: Vec<Hunk> = Vec::new();
    let mut k: usize = 0;
    let n = hunks.len();
    while hunks.len() > 0
        invariant
            k + hunks@.len() == n == input.len(),
            hunk_views(hunks@) == input.skip(k as int),
            hunk_views(sorted@) == sort_by_start_desc(input.take(k as int)),
        decreases hunks@.len(),
    {
        let ghost rest = hunks@;
        let h = hunks.remove(0);
        assert(hunk_views(rest)[0] == rest[0]@);
        assert(input.skip(k as int)[0] == input[k as int]);
        assert(h@ == input[k as int]);
        assert(hunks@ =~= rest.drop_first());
        assert(hunk_views(hunks@) =~= hunk_views(rest).drop_first());
        assert(hunk_views(hunks@) =~= input.skip(k + 1));
        let mut p: usize = 0;
        while p < sorted.len() && sorted[p].start >= h.start
            invariant
                p <= sorted@.len(),
                forall|a: int| 0 <= a < p ==> (#[trigger] sorted@[a]).start >= h.start,
            decreases sorted@.len() - p,
        {
            p = p + 1;
        }
        let ghost before = hunk_views(sorted@);
        proof {
            assert forall|a: int| 0 <= a < p implies (#[trigger] before[a]).start >= h@.start by {
                assert(before[a] == sorted@[a]@);
            }
            if p < before.len() {
                assert(before[p as int] == sorted@[p as int]@);
            }
            lemma_insert_at(before, h@, p as int);
        }
        sorted.insert(p, h);
        assert(hunk_views(sorted@) =~= before.insert(p as int, h@));
        assert(input.take(k + 1).drop_last() =~= input.take(k as int));
        k = k + 1;
    }
    assert(input.take(n as int) =~= input);
    sorted
}

fn note_with_start(prefix: &str, path: &str, start: usize) -> (s: String)
    ensures
        s@ == prefix@ + path@ + seq![':'] + decimal(start as nat),
{
    let mut s = String::new();
    s.append(prefix);
    s.append(path);
    crate::text::push_chars(&mut s, &[':']);
    push_radix(&mut s, start as u64, 10);
    assert(s@ =~= prefix@ + path@ + seq![':'] + decimal(start as nat));
    s
}

pub(crate) fn stale_message(path: &str, start: usize) -> (s: String)
    ensures
        s@ == stale_note(path@, start),
{
    let mut s = note_with_start("Skipping stale hunk at ", path, start);
    s.append(" (file changed since expand)");
    s
}

fn overlap_message(path: &str, start: usize) -> (s: String)
    ensures
        s@ == overlap_note(path@, start),
{
    note_with_start("Skipping overlapping hunk at ", path, start)
}

/// Splice edited hunk bodies into the file, and say which hunks were
/// skipped. Hunks apply bottom-up (highest `start` first) against the
/// file's own coordinates, so earlier splices — at higher indices — never
/// shift the coordinates of later ones. Stale hunks (failing `verify`) and
/// hunks overlapping an already-applied region are skipped and warned.
pub fn apply_hunks_reporting(orig: &[String], hunks: Vec<Hunk>, file_path: &str) -> (res: (
    Vec<String>,
    usize,
    usize,
    Vec<String>,
))
    ensures
        ({
            let st = apply_hunks_spec(views(orig@), hunk_views(hunks@), file_path@);
            &&& views(res.0@) == st.out
            &&& res.1 == st.applied
            &&& res.2 == st.skipped
            &&& views(res.3@) == st.notes
        }),
{
    let ghost file = views(orig@);
    let sorted = sort_hunks(hunks);
    let ghost order = hunk_views(sorted@);
    let mut pending = sorted;
    let mut out = crate::expand::clone_lines(orig, 0, orig.len());
    assert(views(out@) =~= file);
    let mut applied: usize = 0;
    let mut skipped: usize = 0;
    let mut lowest: usize = usize::MAX;
    let mut notes: Vec<String> = Vec::new();
    let n = pending.len();
    let mut k: usize = 0;
    while pending.len() > 0
        invariant
            k + pending@.len() == n == order.len(),
            file == views(orig@),
            hunk_views(pending@) == order.skip(k as int),
            applied + skipped == k,
            ({
                let st = apply_run(
                    ApplyState {
                        out: file,
                        applied: 0,
                        skipped: 0,
                        lowest: usize::MAX as int,
                        notes: Seq::empty(),
                    },
                    order.take(k as int),
                    file,
                    file_path@,
                );
                &&& views(out@) == st.out
                &&& applied == st.applied
                &&& skipped == st.skipped
                &&& lowest == st.lowest
                &&& views(notes@) == st.notes
            }),
            lowest as int >= file.len() ==> views(out@).len() >= file.len(),
            lowest as int <= file.len() ==> views(out@).len() >= lowest,
        decreases pending@.len(),
    {
        let ghost rest = pending@;
        let h = pending.remove(0);
        assert(hunk_views(rest)[0] == rest[0]@);
        assert(order.skip(k as int)[0] == order[k as int]);
        assert(h@ == order[k as int]);
        assert(pending@ =~= rest.drop_first());
        assert(hunk_views(pending@) =~= hunk_views(rest).drop_first());
        assert(hunk_views(pending@) =~= order.skip(k + 1));
        assert(order.take(k + 1).drop_last() =~= order.take(k as int));
        let ghost before_notes = views(notes@);
        if !h.verify(orig) {
            notes.push(stale_message(file_path, h.start));
            assert(views(notes@) =~= before_notes.push(stale_note(file_path@, h.start)));
            skipped = skipped + 1;
        } else {
            assert(views(orig@).len() == orig@.len());
            assert(h.start >= 1 && h.start - 1 + h.len <= orig.len());
            let end = h.start - 1 + h.len;
            if end > lowest {
                notes.push(overlap_message(file_path, h.start));
                assert(views(notes@) =~= before_notes.push(overlap_note(file_path@, h.start)));
                skipped = skipped + 1;
            } else {
                let ghost old_out = views(out@);
                let mut tail = out.split_off(end);
                out.truncate(h.start - 1);
                let mut body = h.body;
                out.append(&mut body);
                out.append(&mut tail);
                assert(views(out@) =~= old_out.take(h.start - 1) + h@.body + old_out.skip(
                    end as int,
                ));
                lowest = h.start - 1;
                applied = applied + 1;
            }
        }
        k = k + 1;
    }
    assert(order.take(n as int) =~= order);
    (out, applied, skipped, notes)
}

/// Splice edited hunk bodies into the file, as [`apply_hunks_reporting`]
/// does, without the warnings.
pub fn apply_hunks(orig: &[String], hunks: Vec<Hunk>, file_path: &str) -> (res: (
    Vec<String>,
    usize,
    usize,
))
    ensures
        ({
            let st = apply_hunks_spec(views(orig@), hunk_views(hunks@), file_path@);
            &&& views(res.0@) == st.out
            &&& res.1 == st.applied
            &&& res.2 == st.skipped
        }),
{
    let (out, applied, skipped, _notes) = apply_hunks_reporting(orig, hunks, file_path);
    (out, applied, skipped)
}

// ---------------------------------------------------------------------------
// Raw line replacements
// ---------------------------------------------------------------------------

/// A replacement of the 1-based line `.0` by `.1`.
pub struct Change(pub usize, pub String);

pub open spec fn change_views(cs: Seq<Change>) -> Seq<(usize, Seq<char>)> {
    cs.map_values(|c: Change| (c.0, c.1@))
}

/// Where replacing stands: the lines so far, the counts and the warnings.
pub struct ChangeState {
    pub lines: Seq<Seq<char>>,
    pub changed: nat,
    pub ignored: nat,
    pub notes: Seq<Seq<char>>,
}

pub open spec fn out_of_range_note(n: usize, path: Seq<char>) -> Seq<char> {
    "Line number "@ + decimal(n as nat) + " is out of range for file "@ + path
}

/// One change: a line number outside the file is ignored with a warning; a
/// replacement equal to the current line is ignored; any other replaces
/// the line.
pub open spec fn change_step(st: ChangeState, c: (usize, Seq<char>), path: Seq<char>) -> ChangeState {
    if c.0 == 0 || c.0 > st.lines.len() {
        ChangeState {
            ignored: st.ignored + 1,
            notes: st.notes.push(out_of_range_note(c.0, path)),
            ..st
        }
    } else if st.lines[c.0 - 1] != c.1 {
        ChangeState { lines: st.lines.update(c.0 - 1, c.1), changed: st.changed + 1, ..st }
    } else {
        ChangeState { ignored: st.ignored + 1, ..st }
    }
}

pub open spec fn change_run(st: ChangeState, cs: Seq<(usize, Seq<char>)>, path: Seq<char>) -> ChangeState
    decreases cs.len(),
{
    if cs.len() == 0 {
        st
    } else {
        change_step(change_run(st, cs.drop_last(), path), cs.last(), path)
    }
}

/// The outcome of applying the changes to `orig`, in order.
pub open spec fn apply_changes_spec(
    orig: Seq<Seq<char>>,
    cs: Seq<(usize, Seq<char>)>,
    path: Seq<char>,
) -> ChangeState {
    change_run(
        ChangeState { lines: orig, changed: 0, ignored: 0, notes: Seq::empty() },
        cs,
        path,
    )
}

proof fn lemma_change_run_len(orig: Seq<Seq<char>>, cs: Seq<(usize, Seq<char>)>, path: Seq<char>)
    ensures
        apply_changes_spec(orig, cs, path).lines.len() == orig.len(),
        apply_changes_spec(orig, cs, path).changed + apply_changes_spec(orig, cs, path).ignored
            == cs.len(),
        apply_changes_spec(orig, cs, path).notes.len() <= cs.len(),
    decreases cs.len(),
{
    if cs.len() > 0 {
        lemma_change_run_len(orig, cs.drop_last(), path);
    }
}

fn out_of_range_message(n: usize, path: &str) -> (s: String)
    ensures
        s@ == out_of_range_note(n, path@),
{
    let mut s = String::new();
    s.append("Line number ");
    push_radix(&mut s, n as u64, 10);
    s.append(" is out of range for file ");
    s.append(path);
    assert(s@ =~= out_of_range_note(n, path@));
    s
}

/// Replace lines of the file as the changes say, and say which were out of
/// range. A change whose line number lies outside the file, or whose
/// replacement equals the line already there, is counted as ignored.
pub fn apply_changes_reporting(orig: &[String], changes: Vec<Change>, file_path: &str) -> (res: (
    Vec<String>,
    usize,
    usize,
    Vec<String>,
))
    ensures
        ({
            let st = apply_changes_spec(views(orig@), change_views(changes@), file_path@);
            &&& views(res.0@) == st.lines
            &&& res.1 == st.changed
            &&& res.2 == st.ignored
            &&& views(res.3@) == st.notes
        }),
{
    let ghost input = change_views(changes@);
    let ghost file = views(orig@);
    let mut pending = changes;
    let mut lines = crate::expand::clone_lines(orig, 0, orig.len());
    assert(views(lines@) =~= file);
    let mut changed: usize = 0;
    let mut ignored: usize = 0;
    let mut notes: Vec<String> = Vec::new();
    let n = pending.len();
    let mut k: usize = 0;
    while pending.len() > 0
        invariant
            k + pending@.len() == n == input.len(),
            change_views(pending@) == input.skip(k as int),
            changed + ignored == k,
            ({
                let st = change_run(
                    ChangeState { lines: file, changed: 0, ignored: 0, notes: Seq::empty() },
                    input.take(k as int),
                    file_path@,
                );
                &&& views(lines@) == st.lines
                &&& changed == st.changed
                &&& ignored == st.ignored
                &&& views(notes@) == st.notes
            }),
        decreases pending@.len(),
    {
        let ghost rest = pending@;
        let c = pending.remove(0);
        assert(change_views(rest)[0] == (rest[0].0, rest[0].1@));
        assert(input.skip(k as int)[0] == input[k as int]);
        assert((c.0, c.1@) == input[k as int]);
        assert(pending@ =~= rest.drop_first());
        assert(change_views(pending@) =~= change_views(rest).drop_first());
        assert(input.take(k + 1).drop_last() =~= input.take(k as int));
        let Change(line_number, replacement) = c;
        let ghost before = views(lines@);
        if line_number == 0 || line_number > lines.len() {
            let ghost before_notes = views(notes@);
            notes.push(out_of_range_message(line_number, file_path));
            assert(views(notes@) =~= before_notes.push(out_of_range_note(line_number, file_path@)));
            ignored = ignored + 1;
        } else if lines[line_number - 1] != replacement {
            lines[line_number - 1] = replacement;
            assert(views(lines@) =~= before.update(line_number - 1, input[k as int].1));
            changed = changed + 1;
        } else {
            ignored = ignored + 1;
        }
        k = k + 1;
    }
    assert(input.take(n as int) =~= input);
    (lines, changed, ignored, notes)
}

/// Replace lines of the file as the changes say, as
/// [`apply_changes_reporting`] does, without the warnings.
pub fn apply_changes(orig: &[String], changes: Vec<Change>, file_path: &str) -> (res: (
    Vec<String>,
    usize,
    usize,
))
    ensures
        ({
            let st = apply_changes_spec(views(orig@), change_views(changes@), file_path@);
            &&& views(res.0@) == st.lines
            &&& res.1 == st.changed
            &&& res.2 == st.ignored
        }),
{
    let (lines, changed, ignored, _notes) = apply_changes_reporting(orig, changes, file_path);
    (lines, changed, ignored)
}

// ---------------------------------------------------------------------------
// Summaries
// ---------------------------------------------------------------------------

/// `{applied} hunks applied, {skipped} skipped`.
pub fn hunks_summary(applied: usize, skipped: usize) -> (s: String)
    ensures
        s@ == decimal(applied as nat) + " hunks applied, "@ + decimal(skipped as nat) + " skipped"@,
{
    let mut s = String::new();
    push_radix(&mut s, applied as u64, 10);
    s.append(" hunks applied, ");
    push_radix(&mut s, skipped as u64, 10);
    s.append(" skipped");
    assert(s@ =~= decimal(applied as nat) + " hunks applied, "@ + decimal(skipped as nat)
        + " skipped"@);
    s
}

/// `{changed} lines changed, {ignored} lines ignored`.
pub fn lines_summary(changed: usize, ignored: usize) -> (s: String)
    ensures
        s@ == decimal(changed as nat) + " lines changed, "@ + decimal(ignored as nat)
            + " lines ignored"@,
{
    let mut s = String::new();
    push_radix(&mut s, changed as u64, 10);
    s.append(" lines changed, ");
    push_radix(&mut s, ignored as u64, 10);
    s.append(" lines ignored");
    assert(s@ =~= decimal(changed as nat) + " lines changed, "@ + decimal(ignored as nat)
        + " lines ignored"@);
    s
}

// ---------------------------------------------------------------------------
// Laws
// ---------------------------------------------------------------------------

proof fn lemma_sort_ascending_is_reverse(hs: Seq<HunkView>)
    requires
        forall|a: int, b: int| 0 <= a < b < hs.len() ==> (#[trigger] hs[a]).start < (#[trigger] hs[b]).start,
    ensures
        sort_by_start_desc(hs) == hs.reverse(),
    decreases hs.len(),
{
    if hs.len() > 0 {
        let init = hs.drop_last();
        assert forall|a: int, b: int| 0 <= a < b < init.len() implies (#[trigger] init[a]).start
            < (#[trigger] init[b]).start by {
            assert(init[a] == hs[a] && init[b] == hs[b]);
        }
        lemma_sort_ascending_is_reverse(init);
        let r = init.reverse();
        if r.len() > 0 {
            assert(r[0] == hs[hs.len() - 2]);
            assert(hs[hs.len() - 2].start < hs.last().start);
            assert(insert_by_start_desc(r, hs.last()) == seq![hs.last()] + r);
        }
        assert(seq![hs.last()] + r =~= hs.reverse());
    }
}

/// The file from line index `pos` on, with the region of each hunk of `hs`
/// swapped for that hunk's body: the lines from `pos` up to the first
/// region, the first hunk's body, then the same again from the end of that
/// region.
pub open spec fn splice_from(file: Seq<Seq<char>>, hs: Seq<HunkView>, pos: int) -> Seq<Seq<char>>
    decreases hs.len(),
{
    if hs.len() == 0 {
        file.skip(pos)
    } else {
        file.subrange(pos, hs[0].start - 1) + hs[0].body + splice_from(
            file,
            hs.drop_first(),
            hs[0].start - 1 + hs[0].len,
        )
    }
}

/// The file with the region of every hunk of `hs` (ascending, apart)
/// swapped for the hunk's body, and every line outside the regions kept.
pub open spec fn spliced(file: Seq<Seq<char>>, hs: Seq<HunkView>) -> Seq<Seq<char>> {
    splice_from(file, hs, 0)
}

/// Hunks in ascending order of start whose regions do not overlap; they
/// may touch.
pub open spec fn disjoint_ascending(hs: Seq<HunkView>) -> bool {
    forall|a: int, b: int|
        0 <= a < b < hs.len() ==> (#[trigger] hs[a]).start < (#[trigger] hs[b]).start && hs[a].start
            + hs[a].len <= hs[b].start
}

proof fn lemma_splice_from_shift(file: Seq<Seq<char>>, hs: Seq<HunkView>, pos: int, q: int)
    requires
        0 <= pos <= q <= file.len(),
        hs.len() == 0 || q <= hs[0].start - 1 <= file.len(),
    ensures
        splice_from(file, hs, pos) == file.subrange(pos, q) + splice_from(file, hs, q),
{
    if hs.len() == 0 {
        assert(file.skip(pos) =~= file.subrange(pos, q) + file.skip(q));
    } else {
        let s0 = hs[0].start - 1;
        let rest = hs[0].body + splice_from(file, hs.drop_first(), hs[0].start - 1 + hs[0].len);
        assert(file.subrange(pos, s0) =~= file.subrange(pos, q) + file.subrange(q, s0));
        assert(file.subrange(pos, s0) + hs[0].body + splice_from(
            file,
            hs.drop_first(),
            hs[0].start - 1 + hs[0].len,
        ) =~= file.subrange(pos, s0) + rest);
        assert(file.subrange(q, s0) + hs[0].body + splice_from(
            file,
            hs.drop_first(),
            hs[0].start - 1 + hs[0].len,
        ) =~= file.subrange(q, s0) + rest);
        assert(file.subrange(pos, q) + (file.subrange(q, s0) + rest) =~= (file.subrange(pos, q)
            + file.subrange(q, s0)) + rest);
    }
}

/// Where splicing the `k` highest of ascending, matching, disjoint hunks
/// stands: each of them applied, and the file below the lowest of them
/// untouched.
#[verifier::spinoff_prover]
proof fn lemma_apply_ascending(file: Seq<Seq<char>>, hs: Seq<HunkView>, path: Seq<char>, k: int)
    requires
        file.len() <= usize::MAX,
        forall|i: int| 0 <= i < hs.len() ==> hunk_matches(#[trigger] hs[i], file),
        disjoint_ascending(hs),
        0 <= k <= hs.len(),
    ensures
        ({
            let st = apply_run(
                ApplyState {
                    out: file,
                    applied: 0,
                    skipped: 0,
                    lowest: usize::MAX as int,
                    notes: Seq::empty(),
                },
                hs.reverse().take(k),
                file,
                path,
            );
            let low = if k == 0 {
                file.len() as int
            } else {
                hs[hs.len() - k].start - 1
            };
            &&& st.applied == k
            &&& st.skipped == 0
            &&& st.notes == Seq::<Seq<char>>::empty()
            &&& st.lowest == if k == 0 {
                usize::MAX as int
            } else {
                hs[hs.len() - k].start - 1
            }
            &&& 0 <= low <= file.len()
            &&& st.out == file.take(low) + splice_from(file, hs.skip(hs.len() - k), low)
        }),
    decreases k,
{
    let init = ApplyState {
        out: file,
        applied: 0,
        skipped: 0,
        lowest: usize::MAX as int,
        notes: Seq::empty(),
    };
    let r = hs.reverse();
    if k == 0 {
        assert(r.take(0) =~= Seq::<HunkView>::empty());
        assert(hs.skip(hs.len() as int) =~= Seq::<HunkView>::empty());
        assert(file.take(file.len() as int) =~= file);
        assert(file.skip(file.len() as int) =~= Seq::<Seq<char>>::empty());
        assert(file.take(file.len() as int) + file.skip(file.len() as int) =~= file);
    } else {
        lemma_apply_ascending(file, hs, path, k - 1);
        assert(r.take(k).drop_last() =~= r.take(k - 1));
        let i = hs.len() - k;
        assert(r.take(k).last() == hs[i]);
        let h = hs[i];
        assert(hunk_matches(h, file));
        let low = if k == 1 {
            file.len() as int
        } else {
            hs[i + 1].start - 1
        };
        if k > 1 {
            assert(hunk_matches(hs[i + 1], file));
            assert(h.start + h.len <= hs[i + 1].start);
        }
        let prev = apply_run(init, r.take(k - 1), file, path);
        let tail = hs.skip(i + 1);
        let big = splice_from(file, tail, low);
        assert(prev.out == file.take(low) + big);
        let e = h.start - 1 + h.len;
        assert(e <= low);
        assert(prev.out.take(h.start - 1) =~= file.take(h.start - 1));
        assert(prev.out.skip(e) =~= file.subrange(e, low) + big);
        if k > 1 {
            assert(tail[0] == hs[i + 1]);
        }
        lemma_splice_from_shift(file, tail, e, low);
        let here = hs.skip(i);
        assert(here[0] == h);
        assert(here.drop_first() =~= tail);
        assert(file.subrange(h.start - 1, h.start - 1) =~= Seq::<Seq<char>>::empty());
        assert(splice_from(file, here, h.start - 1) =~= h.body + splice_from(file, tail, e));
        assert(prev.out.take(h.start - 1) + h.body + prev.out.skip(e) =~= file.take(h.start - 1)
            + splice_from(file, here, h.start - 1));
    }
}

/// Writing back hunks that all match the file, in ascending order with
/// regions that do not overlap, applies every one and skips none, whatever
/// the lengths of their bodies: the file comes out with each region
/// swapped for its hunk's body and every line outside the regions kept,
/// in order.
pub proof fn law_matching_hunks_splice(file: Seq<Seq<char>>, hs: Seq<HunkView>, path: Seq<char>)
    requires
        file.len() <= usize::MAX,
        forall|i: int| 0 <= i < hs.len() ==> hunk_matches(#[trigger] hs[i], file),
        disjoint_ascending(hs),
    ensures
        apply_hunks_spec(file, hs, path).out == spliced(file, hs),
        apply_hunks_spec(file, hs, path).applied == hs.len(),
        apply_hunks_spec(file, hs, path).skipped == 0,
        apply_hunks_spec(file, hs, path).notes == Seq::<Seq<char>>::empty(),
{
    assert forall|a: int, b: int| 0 <= a < b < hs.len() implies (#[trigger] hs[a]).start < (
    #[trigger] hs[b]).start by {}
    lemma_sort_ascending_is_reverse(hs);
    let n = hs.len() as int;
    lemma_apply_ascending(file, hs, path, n);
    assert(hs.reverse().take(n) =~= hs.reverse());
    assert(hs.skip(0) =~= hs);
    let low = if n == 0 {
        file.len() as int
    } else {
        hs[0].start - 1
    };
    if n > 0 {
        assert(hunk_matches(hs[0], file));
    }
    lemma_splice_from_shift(file, hs, 0, low);
    assert(file.take(low) =~= file.subrange(0, low));
}

/// Of two hunks that both match the file and whose regions overlap, the
/// higher one is applied and the lower one is skipped with an overlap
/// warning: the file comes out with only the higher region swapped for its
/// body.
pub proof fn law_overlapping_lower_hunk_skipped(
    file: Seq<Seq<char>>,
    lo: HunkView,
    hi: HunkView,
    path: Seq<char>,
)
    requires
        file.len() <= usize::MAX,
        hunk_matches(lo, file),
        hunk_matches(hi, file),
        lo.start < hi.start < lo.start + lo.len,
    ensures
        ({
            let st = apply_hunks_spec(file, seq![lo, hi], path);
            &&& st.out == file.take(hi.start - 1) + hi.body + file.skip(hi.start - 1 + hi.len)
            &&& st.applied == 1
            &&& st.skipped == 1
            &&& st.notes == seq![overlap_note(path, lo.start)]
        }),
{
    let hs = seq![lo, hi];
    assert forall|a: int, b: int| 0 <= a < b < hs.len() implies (#[trigger] hs[a]).start < (
    #[trigger] hs[b]).start by {
        assert(a == 0 && b == 1);
    }
    lemma_sort_ascending_is_reverse(hs);
    let r = hs.reverse();
    assert(r =~= seq![hi, lo]);
    let init = ApplyState {
        out: file,
        applied: 0,
        skipped: 0,
        lowest: usize::MAX as int,
        notes: Seq::empty(),
    };
    let first = r.drop_last();
    assert(first =~= seq![hi]);
    assert(first.drop_last() =~= Seq::<HunkView>::empty());
    assert(first.last() == hi);
    assert(apply_run(init, first.drop_last(), file, path) == init);
    let one = apply_run(init, first, file, path);
    assert(one == apply_step(init, hi, file, path));
    assert(one.lowest == hi.start - 1);
    assert(seq![overlap_note(path, lo.start)] =~= Seq::<Seq<char>>::empty().push(
        overlap_note(path, lo.start),
    ));
}

/// Hunks that expanding made from `file` (each over its region, ascending,
/// with lines between them), whose bodies may since have been edited.
pub open spec fn expanded_then_edited(
    edited: Seq<HunkView>,
    hs: Seq<HunkView>,
    path: Seq<char>,
    file: Seq<Seq<char>>,
) -> bool {
    &&& hunks_of_file(hs, path, file)
    &&& spaced_hunks(hs)
    &&& edited.len() == hs.len()
    &&& forall|i: int| 0 <= i < hs.len() ==> #[trigger] edited[i] == HunkView { body: edited[i].body, ..hs[i] }
}

proof fn lemma_edited_ascending(edited: Seq<HunkView>, hs: Seq<HunkView>, path: Seq<char>, file: Seq<Seq<char>>)
    requires
        expanded_then_edited(edited, hs, path, file),
    ensures
        forall|a: int, b: int|
            0 <= a < b < edited.len() ==> (#[trigger] edited[a]).start + edited[a].len < (
            #[trigger] edited[b]).start,
{
    assert forall|a: int, b: int| 0 <= a < b < edited.len() implies (#[trigger] edited[a]).start
        + edited[a].len < (#[trigger] edited[b]).start by {
        lemma_spaced_transitive(hs, a, b);
        assert(edited[a].start == hs[a].start && edited[a].len == hs[a].len);
        assert(edited[b].start == hs[b].start);
    }
}

proof fn lemma_spaced_transitive(hs: Seq<HunkView>, a: int, b: int)
    requires
        spaced_hunks(hs),
        0 <= a < b < hs.len(),
        forall|j: int| 0 <= j < hs.len() ==> (#[trigger] hs[j]).len >= 1,
    ensures
        hs[a].start + hs[a].len < hs[b].start,
    decreases b - a,
{
    if b > a + 1 {
        lemma_spaced_transitive(hs, a, b - 1);
        assert(hs[b - 1].start + hs[b - 1].len < hs[b].start);
        assert(hs[b - 1].len >= 1);
    } else {
        assert(hs[a].start + hs[a].len < hs[a + 1].start);
    }
}

/// Writing back hunks that expanding made from a file, whatever their edited
/// bodies, applies every one of them and skips none, as long as the file is
/// unchanged: each region comes out swapped for its edited body.
pub proof fn law_expanded_hunks_all_apply(
    edited: Seq<HunkView>,
    hs: Seq<HunkView>,
    path: Seq<char>,
    file: Seq<Seq<char>>,
    note_path: Seq<char>,
)
    requires
        expanded_then_edited(edited, hs, path, file),
        file.len() <= usize::MAX,
    ensures
        apply_hunks_spec(file, edited, note_path).applied == edited.len(),
        apply_hunks_spec(file, edited, note_path).skipped == 0,
        apply_hunks_spec(file, edited, note_path).notes == Seq::<Seq<char>>::empty(),
        apply_hunks_spec(file, edited, note_path).out == spliced(file, edited),
{
    lemma_edited_ascending(edited, hs, path, file);
    assert forall|i: int| 0 <= i < edited.len() implies hunk_matches(#[trigger] edited[i], file) by {
        assert(edited[i] == HunkView { body: edited[i].body, ..hs[i] });
        assert(hs[i] == region_hunk(path, hs[i].start, region(file, hs[i].start, hs[i].len)));
        assert(fits(hs[i].start, hs[i].len, file.len()));
    }
    assert(disjoint_ascending(edited)) by {
        assert forall|a: int, b: int| 0 <= a < b < edited.len() implies (#[trigger] edited[a]).start
            < (#[trigger] edited[b]).start && edited[a].start + edited[a].len <= edited[b].start by {
            assert(edited[a].start + edited[a].len < edited[b].start);
        }
    }
    law_matching_hunks_splice(file, edited, note_path);
}

proof fn lemma_apply_top_down(
    edited: Seq<HunkView>,
    hs: Seq<HunkView>,
    path: Seq<char>,
    file: Seq<Seq<char>>,
    note_path: Seq<char>,
    init: ApplyState,
    k: int,
)
    requires
        expanded_then_edited(edited, hs, path, file),
        file.len() <= usize::MAX,
        forall|a: int, b: int|
            0 <= a < b < edited.len() ==> (#[trigger] edited[a]).start + edited[a].len < (
            #[trigger] edited[b]).start,
        init == (ApplyState {
            out: file,
            applied: 0,
            skipped: 0,
            lowest: usize::MAX as int,
            notes: Seq::empty(),
        }),
        0 <= k <= edited.len(),
    ensures
        ({
            let st = apply_run(init, edited.reverse().take(k), file, note_path);
            &&& st.applied == k
            &&& st.skipped == 0
            &&& st.notes == Seq::<Seq<char>>::empty()
            &&& k == 0 ==> st.lowest == usize::MAX as int
            &&& k > 0 ==> st.lowest == edited[edited.len() - k].start - 1
            &&& edited == hs ==> st.out == file
        }),
    decreases k,
{
    let r = edited.reverse();
    if k > 0 {
        lemma_apply_top_down(edited, hs, path, file, note_path, init, k - 1);
        assert(r.take(k).drop_last() =~= r.take(k - 1));
        let i = edited.len() - k;
        assert(r.take(k).last() == edited[i]);
        let h = edited[i];
        assert(h == HunkView { body: h.body, ..hs[i] });
        assert(hs[i].len >= 1 && fits(hs[i].start, hs[i].len, file.len()));
        assert(hs[i] == region_hunk(path, hs[i].start, region(file, hs[i].start, hs[i].len)));
        assert(hunk_matches(h, file));
        if k > 1 {
            assert(h.start + h.len < edited[i + 1].start);
        }
        if edited == hs {
            let e = h.start - 1 + h.len;
            assert(file.take(h.start - 1) + region(file, h.start, h.len) + file.skip(e) =~= file);
        }
    }
}

/// The replacement that the last change aimed at (0-based) line `t` made,
/// if any.
pub open spec fn last_change_for(cs: Seq<(usize, Seq<char>)>, t: int) -> Option<Seq<char>>
    decreases cs.len(),
{
    if cs.len() == 0 {
        None
    } else if cs.last().0 == t + 1 {
        Some(cs.last().1)
    } else {
        last_change_for(cs.drop_last(), t)
    }
}

/// Raw changes keep the file's length, count every change as changed or
/// ignored, and leave each line with the text of the last change aimed at
/// it, or untouched when none was.
pub proof fn law_changes_last_write_wins(
    orig: Seq<Seq<char>>,
    cs: Seq<(usize, Seq<char>)>,
    path: Seq<char>,
)
    ensures
        apply_changes_spec(orig, cs, path).lines.len() == orig.len(),
        apply_changes_spec(orig, cs, path).changed + apply_changes_spec(orig, cs, path).ignored
            == cs.len(),
        forall|t: int|
            0 <= t < orig.len() ==> #[trigger] apply_changes_spec(orig, cs, path).lines[t] == match last_change_for(cs, t) {
                Some(v) => v,
                None => orig[t],
            },
    decreases cs.len(),
{
    lemma_change_run_len(orig, cs, path);
    if cs.len() > 0 {
        law_changes_last_write_wins(orig, cs.drop_last(), path);
        let prev = apply_changes_spec(orig, cs.drop_last(), path);
        assert forall|t: int| 0 <= t < orig.len() implies #[trigger] apply_changes_spec(orig, cs, path).lines[t] == match last_change_for(cs, t) {
            Some(v) => v,
            None => orig[t],
        } by {
            assert(prev.lines[t] == match last_change_for(cs.drop_last(), t) {
                Some(v) => v,
                None => orig[t],
            });
        }
    }
}

proof fn lemma_insert_elements(s: Seq<HunkView>, h: HunkView)
    ensures
        insert_by_start_desc(s, h).len() == s.len() + 1,
        forall|i: int|
            0 <= i < s.len() + 1 ==> #[trigger] insert_by_start_desc(s, h)[i] == h || s.contains(
                insert_by_start_desc(s, h)[i],
            ),
    decreases s.len(),
{
    if s.len() > 0 && s[0].start >= h.start {
        let t = s.drop_first();
        lemma_insert_elements(t, h);
        let r = insert_by_start_desc(s, h);
        assert forall|i: int| 0 <= i < s.len() + 1 implies #[trigger] r[i] == h || s.contains(r[i]) by {
            if i == 0 {
                assert(r[0] == s[0]);
            } else {
                assert(r[i] == insert_by_start_desc(t, h)[i - 1]);
                if r[i] != h {
                    let j = choose|j: int| 0 <= j < t.len() && t[j] == r[i];
                    assert(s[j + 1] == t[j]);
                }
            }
        }
    } else if s.len() > 0 {
        let r = insert_by_start_desc(s, h);
        assert forall|i: int| 0 <= i < s.len() + 1 implies #[trigger] r[i] == h || s.contains(r[i]) by {
            if i > 0 {
                assert(r[i] == s[i - 1]);
            }
        }
    }
}

proof fn lemma_sort_elements(hs: Seq<HunkView>)
    ensures
        sort_by_start_desc(hs).len() == hs.len(),
        forall|i: int|
            0 <= i < hs.len() ==> hs.contains(#[trigger] sort_by_start_desc(hs)[i]),
    decreases hs.len(),
{
    if hs.len() > 0 {
        let init = hs.drop_last();
        lemma_sort_elements(init);
        let s = sort_by_start_desc(init);
        lemma_insert_elements(s, hs.last());
        assert forall|i: int| 0 <= i < hs.len() implies hs.contains(
            #[trigger] sort_by_start_desc(hs)[i],
        ) by {
            let x = sort_by_start_desc(hs)[i];
            if x == hs.last() {
                assert(hs[hs.len() - 1] == x);
            } else {
                let j = choose|j: int| 0 <= j < s.len() && s[j] == x;
                assert(init.contains(s[j]));
                let m = choose|m: int| 0 <= m < init.len() && init[m] == s[j];
                assert(hs[m] == init[m]);
            }
        }
    }
}

proof fn lemma_stale_run(st: ApplyState, hs: Seq<HunkView>, orig: Seq<Seq<char>>, path: Seq<char>)
    requires
        forall|i: int| 0 <= i < hs.len() ==> !hunk_matches(#[trigger] hs[i], orig),
    ensures
        apply_run(st, hs, orig, path).out == st.out,
        apply_run(st, hs, orig, path).applied == st.applied,
        apply_run(st, hs, orig, path).skipped == st.skipped + hs.len(),
    decreases hs.len(),
{
    if hs.len() > 0 {
        let init = hs.drop_last();
        assert forall|i: int| 0 <= i < init.len() implies !hunk_matches(#[trigger] init[i], orig) by {
            assert(init[i] == hs[i]);
        }
        lemma_stale_run(st, init, orig, path);
        assert(!hunk_matches(hs[hs.len() - 1], orig));
    }
}

/// Every hunk is either applied or skipped.
pub proof fn law_hunks_counted(orig: Seq<Seq<char>>, hs: Seq<HunkView>, path: Seq<char>)
    ensures
        apply_hunks_spec(orig, hs, path).applied + apply_hunks_spec(orig, hs, path).skipped
            == hs.len(),
{
    lemma_sort_elements(hs);
    lemma_run_counts(
        ApplyState {
            out: orig,
            applied: 0,
            skipped: 0,
            lowest: usize::MAX as int,
            notes: Seq::empty(),
        },
        sort_by_start_desc(hs),
        orig,
        path,
    );
}

proof fn lemma_run_counts(st: ApplyState, hs: Seq<HunkView>, orig: Seq<Seq<char>>, path: Seq<char>)
    ensures
        apply_run(st, hs, orig, path).applied + apply_run(st, hs, orig, path).skipped == st.applied
            + st.skipped + hs.len(),
    decreases hs.len(),
{
    if hs.len() > 0 {
        lemma_run_counts(st, hs.drop_last(), orig, path);
    }
}

/// Stale hunks, whose regions no longer hash as their headers say, are all
/// skipped and leave the file as it was.
pub proof fn law_stale_hunks_change_nothing(orig: Seq<Seq<char>>, hs: Seq<HunkView>, path: Seq<char>)
    requires
        forall|i: int| 0 <= i < hs.len() ==> !hunk_matches(#[trigger] hs[i], orig),
    ensures
        apply_hunks_spec(orig, hs, path).out == orig,
        apply_hunks_spec(orig, hs, path).applied == 0,
        apply_hunks_spec(orig, hs, path).skipped == hs.len(),
{
    lemma_sort_elements(hs);
    let s = sort_by_start_desc(hs);
    assert forall|i: int| 0 <= i < s.len() implies !hunk_matches(#[trigger] s[i], orig) by {
        assert(hs.contains(s[i]));
        let j = choose|j: int| 0 <= j < hs.len() && hs[j] == s[i];
        assert(!hunk_matches(hs[j], orig));
    }
    lemma_stale_run(
        ApplyState {
            out: orig,
            applied: 0,
            skipped: 0,
            lowest: usize::MAX as int,
            notes: Seq::empty(),
        },
        s,
        orig,
        path,
    );
}

/// Writing a single hunk is one step from the file as read.
pub proof fn lemma_apply_one(orig: Seq<Seq<char>>, h: HunkView, note_path: Seq<char>)
    ensures
        apply_hunks_spec(orig, seq![h], note_path) == apply_step(
            ApplyState {
                out: orig,
                applied: 0,
                skipped: 0,
                lowest: usize::MAX as int,
                notes: Seq::empty(),
            },
            h,
            orig,
            note_path,
        ),
{
    let one = seq![h];
    assert(one.drop_last() =~= Seq::<HunkView>::empty());
    assert(one.last() == h);
    assert(sort_by_start_desc(one.drop_last()) =~= Seq::<HunkView>::empty());
    assert(sort_by_start_desc(one) == insert_by_start_desc(Seq::<HunkView>::empty(), h));
    assert(insert_by_start_desc(Seq::<HunkView>::empty(), h) =~= one);
    assert(sort_by_start_desc(one) =~= one);
    let s = sort_by_start_desc(one);
    assert(s.drop_last() =~= Seq::<HunkView>::empty());
    assert(s.last() == h);
    let init = ApplyState {
        out: orig,
        applied: 0,
        skipped: 0,
        lowest: usize::MAX as int,
        notes: Seq::empty(),
    };
    assert(apply_run(init, s.drop_last(), orig, note_path) == init);
}

/// One hunk over an unchanged region, whatever its edited body, replaces
/// exactly that region by its body.
pub proof fn law_single_hunk_splices(
    orig: Seq<Seq<char>>,
    path: Seq<char>,
    start: usize,
    len: usize,
    body: Seq<Seq<char>>,
    note_path: Seq<char>,
)
    requires
        fits(start, len, orig.len()),
        orig.len() <= usize::MAX,
    ensures
        ({
            let h = HunkView { body, ..region_hunk(path, start, region(orig, start, len)) };
            let st = apply_hunks_spec(orig, seq![h], note_path);
            &&& st.out == orig.take(start - 1) + body + orig.skip(start - 1 + len)
            &&& st.applied == 1
            &&& st.skipped == 0
        }),
{
    let h = HunkView { body, ..region_hunk(path, start, region(orig, start, len)) };
    assert(region(orig, start, len).len() == len);
    assert(h.len == len);
    assert(hunk_matches(h, orig));
    lemma_apply_one(orig, h, note_path);
}

/// Writing back the hunks that expanding made from a file, unedited,
/// leaves the file as it was.
pub proof fn law_unedited_write_is_identity(
    hs: Seq<HunkView>,
    path: Seq<char>,
    file: Seq<Seq<char>>,
    note_path: Seq<char>,
)
    requires
        hunks_of_file(hs, path, file),
        spaced_hunks(hs),
        file.len() <= usize::MAX,
    ensures
        apply_hunks_spec(file, hs, note_path).out == file,
        apply_hunks_spec(file, hs, note_path).applied == hs.len(),
{
    assert(expanded_then_edited(hs, hs, path, file));
    law_expanded_hunks_all_apply(hs, hs, path, file, note_path);
    lemma_edited_ascending(hs, hs, path, file);
    assert forall|a: int, b: int| 0 <= a < b < hs.len() implies (#[trigger] hs[a]).start
        < (#[trigger] hs[b]).start by {
        assert(hs[a].start + hs[a].len < hs[b].start);
    }
    lemma_sort_ascending_is_reverse(hs);
    let init = ApplyState {
        out: file,
        applied: 0,
        skipped: 0,
        lowest: usize::MAX as int,
        notes: Seq::empty(),
    };
    lemma_apply_top_down(hs, hs, path, file, note_path, init, hs.len() as int);
    assert(hs.reverse().take(hs.len() as int) =~= hs.reverse());
}

pub open spec fn keyed_change_views(v: Seq<(String, Change)>) -> Seq<(Seq<char>, usize, Seq<char>)> {
    v.map_values(|p: (String, Change)| (p.0@, p.1.0, p.1.1@))
}

/// The replacement a grep line asks for: its content, or nothing.
pub open spec fn requested_change(g: GrepLineView) -> (Seq<char>, usize, Seq<char>) {
    (
        g.path,
        g.line,
        match g.content {
            Some(c) => c,
            None => Seq::empty(),
        },
    )
}

/// The line replacements that raw grep lines ask for, each with its file,
/// in order, and a warning for each malformed line.
pub fn raw_changes(input: &[String]) -> (res: (Vec<(String, Change)>, Vec<String>))
    ensures
        keyed_change_views(res.0@) == parsed_lines(views(input@)).map_values(
            |g: GrepLineView| requested_change(g),
        ),
        views(res.1@) == parse_warnings(views(input@)),
{
    let (lines, warnings) = parse_lines(input);
    let ghost gs = grep_views(lines@);
    let mut out: Vec<(String, Change)> = Vec::new();
    let n = lines.len();
    let mut i: usize = 0;
    while i < n
        invariant
            i <= n == lines@.len(),
            gs == grep_views(lines@),
            keyed_change_views(out@) == gs.take(i as int).map_values(
                |g: GrepLineView| requested_change(g),
            ),
        decreases n - i,
    {
        let g = &lines[i];
        let replacement = match &g.content {
            Some(c) => c.clone(),
            None => String::new(),
        };
        let ghost before = out@;
        let key = g.path.clone();
        let ghost item = (key, Change(g.line, replacement));
        out.push((key, Change(g.line, replacement)));
        assert(gs[i as int] == lines@[i as int]@);
        assert(out@ == before.push(item));
        assert(keyed_change_views(out@) =~= keyed_change_views(before).push(requested_change(gs[i as int])));
        assert(gs.take(i + 1) =~= gs.take(i as int).push(gs[i as int]));
        assert(keyed_change_views(out@) =~= gs.take(i + 1).map_values(
            |g: GrepLineView| requested_change(g),
        ));
        i = i + 1;
    }
    assert(gs.take(n as int) =~= gs);
    (out, warnings)
}

} // verus!
