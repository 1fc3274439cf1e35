//! Expanding requested line numbers into merged hunks.

use vstd::prelude::*;

use crate::hunk::{fits, hunk_views, region, region_hunk, Hunk, HunkView};
use crate::errors::AppError;
use crate::grepline::{grep_views, parse_lines, parse_warnings, parsed_lines, GrepLineView};
use crate::text::{chars_of, parse_usize, parse_usize_spec, views};

verus! {

broadcast use vstd::string::group_string_axioms;

/// The region `[n - above, n + below]` of line `n`, clamped to a file of
/// `len` lines.
pub open spec fn line_range(n: usize, above: usize, below: usize, len: nat) -> (int, int) {
    (
        if n > above {
            n - above
        } else {
            1
        },
        if n + below < len {
            n + below
        } else {
            len as int
        },
    )
}

/// Whether requested line `n` exists in a file of `len` lines.
pub open spec fn line_in_file(n: usize, len: nat) -> bool {
    1 <= n <= len
}

/// Whether line `k` falls in the region of some requested line that exists.
pub open spec fn requested(lines: Seq<usize>, len: nat, above: usize, below: usize, k: int) -> bool {
    exists|i: int|
        0 <= i < lines.len() && line_in_file(#[trigger] lines[i], len) && line_range(
            lines[i],
            above,
            below,
            len,
        ).0 <= k <= line_range(lines[i], above, below, len).1
}

/// Whether line `k` lies in one of the inclusive ranges `rs`.
pub open spec fn in_ranges(rs: Seq<(usize, usize)>, k: int) -> bool {
    exists|j: int| 0 <= j < rs.len() && (#[trigger] rs[j]).0 <= k <= rs[j].1
}

/// Whether line `k` lies in one of the hunks.
pub open spec fn covered(hs: Seq<HunkView>, k: int) -> bool {
    exists|j: int| 0 <= j < hs.len() && (#[trigger] hs[j]).start <= k < hs[j].start + hs[j].len
}

/// Ranges within a file of `len` lines, each non-empty.
pub open spec fn ranges_in_file(rs: Seq<(usize, usize)>, len: nat) -> bool {
    forall|j: int| 0 <= j < rs.len() ==> 1 <= (#[trigger] rs[j]).0 <= rs[j].1 <= len
}

/// Lexicographic order on ranges.
pub open spec fn range_le(a: (usize, usize), b: (usize, usize)) -> bool {
    a.0 < b.0 || (a.0 == b.0 && a.1 <= b.1)
}

pub open spec fn sorted_ranges(rs: Seq<(usize, usize)>) -> bool {
    forall|a: int, b: int| 0 <= a < b < rs.len() ==> range_le(#[trigger] rs[a], #[trigger] rs[b])
}

/// Where `x` goes in the sorted `rs`: after every range that is not above it.
fn insertion_point(rs: &Vec<(usize, usize)>, x: (usize, usize)) -> (p: usize)
    ensures
        p <= rs@.len(),
        forall|a: int| 0 <= a < p ==> range_le(#[trigger] rs@[a], x),
        p < rs@.len() ==> !range_le(rs@[p as int], x),
{
    let mut p: usize = 0;
    while p < rs.len() && (rs[p].0 < x.0 || (rs[p].0 == x.0 && rs[p].1 <= x.1))
        invariant
            p <= rs@.len(),
            forall|a: int| 0 <= a < p ==> range_le(#[trigger] rs@[a], x),
        decreases rs@.len() - p,
    {
        p = p + 1;
    }
    p
}

/// The regions of the requested lines that exist, sorted.
fn collect_ranges(len: usize, lines: &[usize], above: usize, below: usize) -> (rs: Vec<(usize, usize)>)
    ensures
        ranges_in_file(rs@, len as nat),
        sorted_ranges(rs@),
        forall|k: int| in_ranges(rs@, k) <==> requested(lines@, len as nat, above, below, k),
{
    let mut rs: Vec<(usize, usize)> = Vec::new();
    let mut i: usize = 0;
    while i < lines.len()
        invariant
            i <= lines@.len(),
            ranges_in_file(rs@, len as nat),
            sorted_ranges(rs@),
            forall|k: int|
                in_ranges(rs@, k) <==> requested(lines@.take(i as int), len as nat, above, below, k),
        decreases lines@.len() - i,
    {
        let n = lines[i];
        let ghost prev = rs@;
        if n >= 1 && n <= len {
            let start = if n > above {
                n - above
            } else {
                1
            };
            let end = if below >= len - n {
                len
            } else {
                n + below
            };
            let p = insertion_point(&rs, (start, end));
            rs.insert(p, (start, end));
            assert(rs@ == prev.insert(p as int, (start, end)));
            assert(sorted_ranges(rs@)) by {
                assert forall|a: int, b: int| 0 <= a < b < rs@.len() implies range_le(
                    #[trigger] rs@[a],
                    #[trigger] rs@[b],
                ) by {
                    if a < p && b == p {
                    } else if a == p && b > p {
                        assert(rs@[b] == prev[b - 1]);
                        if p < b - 1 {
                            assert(range_le(prev[p as int], prev[b - 1]));
                        }
                    } else if b < p {
                        assert(range_le(prev[a], prev[b]));
                    } else if a < p && b > p {
                        assert(range_le(prev[a], prev[b - 1]));
                    } else {
                        assert(range_le(prev[a - 1], prev[b - 1]));
                    }
                }
            }
            assert forall|k: int|
                in_ranges(rs@, k) <==> requested(
                    lines@.take(i + 1),
                    len as nat,
                    above,
                    below,
                    k,
                ) by {
                if in_ranges(rs@, k) {
                    let j = choose|j: int| 0 <= j < rs@.len() && (#[trigger] rs@[j]).0 <= k <= rs@[j].1;
                    if j != p {
                        let jj = if j < p { j } else { j - 1 };
                        assert(prev[jj] == rs@[j]);
                        assert(in_ranges(prev, k));
                        let w = choose|w: int|
                            0 <= w < i && line_in_file(#[trigger] lines@.take(i as int)[w], len as nat)
                                && line_range(lines@.take(i as int)[w], above, below, len as nat).0 <= k
                                <= line_range(lines@.take(i as int)[w], above, below, len as nat).1;
                        assert(lines@.take(i + 1)[w] == lines@.take(i as int)[w]);
                    } else {
                        assert(lines@.take(i + 1)[i as int] == n);
                        assert(line_range(n, above, below, len as nat) == (start as int, end as int));
                    }
                }
                if requested(lines@.take(i + 1), len as nat, above, below, k) {
                    let w = choose|w: int|
                        0 <= w < i + 1 && line_in_file(#[trigger] lines@.take(i + 1)[w], len as nat)
                            && line_range(lines@.take(i + 1)[w], above, below, len as nat).0 <= k
                            <= line_range(lines@.take(i + 1)[w], above, below, len as nat).1;
                    if w < i {
                        assert(lines@.take(i + 1)[w] == lines@.take(i as int)[w]);
                        assert(requested(lines@.take(i as int), len as nat, above, below, k));
                        assert(in_ranges(prev, k));
                        let j = choose|j: int| 0 <= j < prev.len() && (#[trigger] prev[j]).0 <= k <= prev[j].1;
                        if j < p {
                            assert(rs@[j] == prev[j]);
                        } else {
                            assert(rs@[j + 1] == prev[j]);
                        }
                    } else {
                        assert(rs@[p as int] == (start, end));
                    }
                }
            }
        } else {
            assert forall|k: int|
                in_ranges(rs@, k) <==> requested(
                    lines@.take(i + 1),
                    len as nat,
                    above,
                    below,
                    k,
                ) by {
                if requested(lines@.take(i + 1), len as nat, above, below, k) {
                    let w = choose|w: int|
                        0 <= w < i + 1 && line_in_file(#[trigger] lines@.take(i + 1)[w], len as nat)
                            && line_range(lines@.take(i + 1)[w], above, below, len as nat).0 <= k
                            <= line_range(lines@.take(i + 1)[w], above, below, len as nat).1;
                    assert(w != i);
                    assert(lines@.take(i + 1)[w] == lines@.take(i as int)[w]);
                    assert(requested(lines@.take(i as int), len as nat, above, below, k));
                }
                if requested(lines@.take(i as int), len as nat, above, below, k) {
                    let w = choose|w: int|
                        0 <= w < i && line_in_file(#[trigger] lines@.take(i as int)[w], len as nat)
                            && line_range(lines@.take(i as int)[w], above, below, len as nat).0 <= k
                            <= line_range(lines@.take(i as int)[w], above, below, len as nat).1;
                    assert(lines@.take(i + 1)[w] == lines@.take(i as int)[w]);
                }
            }
        }
        i = i + 1;
    }
    assert(lines@.take(lines@.len() as int) == lines@);
    rs
}

/// Consecutive ranges with at least one line between them.
pub open spec fn spaced(rs: Seq<(usize, usize)>) -> bool {
    forall|j: int| 0 <= j < rs.len() - 1 ==> (#[trigger] rs[j]).1 + 1 < rs[j + 1].0
}

proof fn lemma_in_ranges_push(rs: Seq<(usize, usize)>, x: (usize, usize), k: int)
    ensures
        in_ranges(rs.push(x), k) <==> (in_ranges(rs, k) || x.0 <= k <= x.1),
{
    let r2 = rs.push(x);
    if in_ranges(r2, k) {
        let j = choose|j: int| 0 <= j < r2.len() && (#[trigger] r2[j]).0 <= k <= r2[j].1;
        if j < rs.len() {
            assert(rs[j] == r2[j]);
        }
    }
    if in_ranges(rs, k) {
        let j = choose|j: int| 0 <= j < rs.len() && (#[trigger] rs[j]).0 <= k <= rs[j].1;
        assert(r2[j] == rs[j]);
    }
    if x.0 <= k <= x.1 {
        assert(r2[rs.len() as int] == x);
    }
}

proof fn lemma_in_ranges_widen_last(rs: Seq<(usize, usize)>, y: (usize, usize), k: int)
    requires
        rs.len() > 0,
        y.0 == rs.last().0,
        y.1 >= rs.last().1,
    ensures
        in_ranges(rs.update(rs.len() - 1, y), k) <==> (in_ranges(rs, k) || y.0 <= k <= y.1),
{
    let r2 = rs.update(rs.len() - 1, y);
    let l = rs.len() - 1;
    if in_ranges(r2, k) {
        let j = choose|j: int| 0 <= j < r2.len() && (#[trigger] r2[j]).0 <= k <= r2[j].1;
        if j < l {
            assert(rs[j] == r2[j]);
        }
    }
    if in_ranges(rs, k) {
        let j = choose|j: int| 0 <= j < rs.len() && (#[trigger] rs[j]).0 <= k <= rs[j].1;
        if j < l {
            assert(r2[j] == rs[j]);
        } else {
            assert(r2[l] == y);
        }
    }
    if y.0 <= k <= y.1 {
        assert(r2[l] == y);
    }
}

/// Merges sorted ranges that overlap or touch.
fn merge_ranges(rs: &Vec<(usize, usize)>, len: usize) -> (m: Vec<(usize, usize)>)
    requires
        ranges_in_file(rs@, len as nat),
        sorted_ranges(rs@),
    ensures
        ranges_in_file(m@, len as nat),
        spaced(m@),
        forall|k: int| in_ranges(m@, k) <==> in_ranges(rs@, k),
{
    let mut m: Vec<(usize, usize)> = Vec::new();
    let mut i: usize = 0;
    assert(rs@.take(0) =~= Seq::<(usize, usize)>::empty());
    while i < rs.len()
        invariant
            i <= rs@.len(),
            ranges_in_file(rs@, len as nat),
            sorted_ranges(rs@),
            ranges_in_file(m@, len as nat),
            spaced(m@),
            forall|k: int| in_ranges(m@, k) <==> in_ranges(rs@.take(i as int), k),
            m@.len() > 0 ==> forall|j: int| i <= j < rs@.len() ==> m@.last().0 <= #[trigger] rs@[j].0,
        decreases rs@.len() - i,
    {
        let (s, e) = rs[i];
        let ghost prev = m@;
        assert(rs@.take(i + 1) =~= rs@.take(i as int).push(rs@[i as int]));
        assert(1 <= s <= e <= len);
        let n = m.len();
        if n > 0 && s - 1 <= m[n - 1].1 {
            let (l0, l1) = m[n - 1];
            let hi = if e > l1 {
                e
            } else {
                l1
            };
            m[n - 1] = (l0, hi);
            assert(m@ == prev.update(n - 1, (l0, hi)));
            assert(prev.last().0 <= rs@[i as int].0);
            assert forall|k: int| in_ranges(m@, k) <==> in_ranges(rs@.take(i + 1), k) by {
                lemma_in_ranges_widen_last(prev, (l0, hi), k);
                if l0 <= k <= l1 {
                    assert(prev[n - 1] == (l0, l1));
                    assert(in_ranges(prev, k));
                }
                lemma_in_ranges_push(rs@.take(i as int), (s, e), k);
            }
            assert(spaced(m@)) by {
                assert forall|j: int| 0 <= j < m@.len() - 1 implies (#[trigger] m@[j]).1 + 1 < m@[j + 1].0 by {
                    assert(m@[j] == prev[j]);
                    assert(m@[j + 1].0 == prev[j + 1].0);
                }
            }
            assert(forall|j: int| i + 1 <= j < rs@.len() ==> range_le(rs@[i as int], #[trigger] rs@[j]));
        } else {
            m.push((s, e));
            assert forall|k: int| in_ranges(m@, k) <==> in_ranges(rs@.take(i + 1), k) by {
                lemma_in_ranges_push(prev, (s, e), k);
                lemma_in_ranges_push(rs@.take(i as int), (s, e), k);
            }
            assert(spaced(m@)) by {
                assert forall|j: int| 0 <= j < m@.len() - 1 implies (#[trigger] m@[j]).1 + 1 < m@[j + 1].0 by {
                    assert(m@[j] == prev[j]);
                    if j < n - 1 {
                        assert(m@[j + 1] == prev[j + 1]);
                    }
                }
            }
            assert(forall|j: int| i + 1 <= j < rs@.len() ==> range_le(rs@[i as int], #[trigger] rs@[j]));
        }
        i = i + 1;
    }
    assert(rs@.take(rs@.len() as int) =~= rs@);
    m
}

/// Hunks over regions of `file`, each non-empty and built as `from_region`
/// builds it.
pub open spec fn hunks_of_file(hs: Seq<HunkView>, path: Seq<char>, file: Seq<Seq<char>>) -> bool {
    forall|j: int|
        0 <= j < hs.len() ==> {
            &&& (#[trigger] hs[j]).len >= 1
            &&& fits(hs[j].start, hs[j].len, file.len())
            &&& hs[j] == region_hunk(path, hs[j].start, region(file, hs[j].start, hs[j].len))
        }
}

/// Hunks in ascending order with at least one line between consecutive ones.
pub open spec fn spaced_hunks(hs: Seq<HunkView>) -> bool {
    forall|j: int|
        0 <= j < hs.len() - 1 ==> (#[trigger] hs[j]).start + hs[j].len < hs[j + 1].start
}

/// Copies of `lines[lo..hi]`.
pub fn clone_lines(lines: &[String], lo: usize, hi: usize) -> (res: Vec<String>)
    requires
        lo <= hi <= lines@.len(),
    ensures
        views(res@) == views(lines@).subrange(lo as int, hi as int),
{
    let mut res: Vec<String> = Vec::new();
    let mut i = lo;
    while i < hi
        invariant
            lo <= i <= hi <= lines@.len(),
            views(res@) == views(lines@).subrange(lo as int, i as int),
        decreases hi - i,
    {
        let ghost before = res@;
        let c = lines[i].clone();
        assert(c@ == lines@[i as int]@);
        res.push(c);
        assert(res@ == before.push(c));
        assert(views(res@) =~= views(before).push(c@));
        assert(views(res@) =~= views(lines@).subrange(lo as int, i + 1));
        i = i + 1;
    }
    res
}

/// Expand requested line numbers into merged hunks. Each line contributes the
/// region `[line - above, line + below]` (clamped to the file); overlapping or
/// adjacent regions merge into one hunk. Lines past EOF are skipped.
pub fn build_hunks(
    file_path: &str,
    contents: &[String],
    lines: &[usize],
    above: usize,
    below: usize,
) -> (hs: Vec<Hunk>)
    ensures
        hunks_of_file(hunk_views(hs@), file_path@, views(contents@)),
        spaced_hunks(hunk_views(hs@)),
        forall|k: int|
            covered(hunk_views(hs@), k) <==> requested(lines@, contents@.len(), above, below, k),
{
    let n = contents.len();
    let rs = collect_ranges(n, lines, above, below);
    let m = merge_ranges(&rs, n);
    let ghost file = views(contents@);
    let mut out: Vec<Hunk> = Vec::new();
    let mut j: usize = 0;
    while j < m.len()
        invariant
            j <= m@.len(),
            n == contents@.len(),
            file == views(contents@),
            ranges_in_file(m@, n as nat),
            out@.len() == j,
            forall|t: int|
                0 <= t < j ==> (#[trigger] out@[t])@ == region_hunk(
                    file_path@,
                    m@[t].0,
                    file.subrange(m@[t].0 - 1, m@[t].1 as int),
                ),
        decreases m@.len() - j,
    {
        let (s, e) = m[j];
        assert(1 <= s <= e <= n);
        let body = clone_lines(contents, s - 1, e);
        let h = Hunk::from_region(file_path.to_owned(), s, body);
        out.push(h);
        j = j + 1;
    }
    let ghost hv = hunk_views(out@);
    assert forall|t: int| 0 <= t < hv.len() implies hv[t].start == m@[t].0 && hv[t].start
        + hv[t].len == m@[t].1 + 1 by {
        assert(hv[t] == out@[t]@);
    }
    assert(hunks_of_file(hv, file_path@, file)) by {
        assert forall|t: int| 0 <= t < hv.len() implies {
            &&& (#[trigger] hv[t]).len >= 1
            &&& fits(hv[t].start, hv[t].len, file.len())
            &&& hv[t] == region_hunk(file_path@, hv[t].start, region(file, hv[t].start, hv[t].len))
        } by {
            assert(hv[t] == out@[t]@);
            assert(1 <= m@[t].0 <= m@[t].1 <= n);
        }
    }
    assert(spaced_hunks(hv)) by {
        assert forall|t: int| 0 <= t < hv.len() - 1 implies (#[trigger] hv[t]).start + hv[t].len
            < hv[t + 1].start by {
            assert(m@[t].1 + 1 < m@[t + 1].0);
        }
    }
    assert forall|k: int| covered(hv, k) <==> in_ranges(m@, k) by {
        if covered(hv, k) {
            let t = choose|t: int| 0 <= t < hv.len() && (#[trigger] hv[t]).start <= k < hv[t].start
                + hv[t].len;
            assert(m@[t].0 <= k <= m@[t].1);
        }
        if in_ranges(m@, k) {
            let t = choose|t: int| 0 <= t < m@.len() && (#[trigger] m@[t]).0 <= k <= m@[t].1;
            assert(hv[t].start <= k < hv[t].start + hv[t].len);
        }
    }
    out
}

/// The view of an optional argument.
pub open spec fn arg_view(a: Option<&str>) -> Option<Seq<char>> {
    match a {
        Some(s) => Some(s@),
        None => None,
    }
}

/// How many lines above and below each requested line the hunks take: the
/// `context` count (1 when absent) unless `above` or `below` give their own.
/// A count that is no `usize` is an error, `context` checked first.
pub open spec fn context_spec(
    context: Option<Seq<char>>,
    above: Option<Seq<char>>,
    below: Option<Seq<char>>,
) -> Result<(usize, usize), Seq<char>> {
    let c = match context {
        Some(s) => parse_usize_spec(s),
        None => Some(1usize),
    };
    match c {
        None => Err("Invalid number of context lines"@),
        Some(c) => {
            let a = match above {
                Some(s) => parse_usize_spec(s),
                None => Some(c),
            };
            match a {
                None => Err("Invalid number of lines above"@),
                Some(a) => {
                    let b = match below {
                        Some(s) => parse_usize_spec(s),
                        None => Some(c),
                    };
                    match b {
                        None => Err("Invalid number of lines below"@),
                        Some(b) => Ok((a, b)),
                    }
                },
            }
        },
    }
}

fn count_or(arg: Option<&str>, default: usize) -> (r: Option<usize>)
    ensures
        r == match arg {
            Some(s) => parse_usize_spec(s@),
            None => Some(default),
        },
{
    match arg {
        Some(s) => parse_usize(&chars_of(s)),
        None => Some(default),
    }
}

fn invalid_number(msg: &str) -> (e: AppError)
    ensures
        e matches AppError::InvalidNumber(m) && m@ == msg@,
{
    AppError::InvalidNumber(msg.to_owned())
}

/// Reads the `--context`, `--above` and `--below` counts.
pub fn resolve_context(context: Option<&str>, above: Option<&str>, below: Option<&str>) -> (res:
    Result<(usize, usize), AppError>)
    ensures
        match (res, context_spec(arg_view(context), arg_view(above), arg_view(below))) {
            (Ok(p), Ok(q)) => p == q,
            (Err(AppError::InvalidNumber(m)), Err(q)) => m@ == q,
            _ => false,
        },
{
    let c = match count_or(context, 1) {
        Some(c) => c,
        None => return Err(invalid_number("Invalid number of context lines")),
    };
    let a = match count_or(above, c) {
        Some(a) => a,
        None => return Err(invalid_number("Invalid number of lines above")),
    };
    let b = match count_or(below, c) {
        Some(b) => b,
        None => return Err(invalid_number("Invalid number of lines below")),
    };
    Ok((a, b))
}

pub open spec fn request_views(v: Seq<(String, usize)>) -> Seq<(Seq<char>, usize)> {
    v.map_values(|p: (String, usize)| (p.0@, p.1))
}

/// The `(path, line)` of each grep line of `input`, in order, and a warning
/// for each malformed line.
pub fn line_requests(input: &[String]) -> (res: (Vec<(String, usize)>, Vec<String>))
    ensures
        request_views(res.0@) == parsed_lines(views(input@)).map_values(
            |g: GrepLineView| (g.path, g.line),
        ),
        views(res.1@) == parse_warnings(views(input@)),
{
    let (lines, warnings) = parse_lines(input);
    let ghost gs = grep_views(lines@);
    let mut out: Vec<(String, usize)> = Vec::new();
    let n = lines.len();
    let mut i: usize = 0;
    while i < n
        invariant
            i <= n == lines@.len(),
            gs == grep_views(lines@),
            request_views(out@) == gs.take(i as int).map_values(|g: GrepLineView| (g.path, g.line)),
        decreases n - i,
    {
        let ghost before = out@;
        let p = lines[i].path.clone();
        let ln = lines[i].line;
        let ghost item = (p, ln);
        out.push((p, ln));
        assert(gs[i as int] == lines@[i as int]@);
        assert(out@ == before.push(item));
        assert(request_views(out@) =~= request_views(before).push((gs[i as int].path, gs[i as int].line)));
        assert(gs.take(i + 1) =~= gs.take(i as int).push(gs[i as int]));
        assert(request_views(out@) =~= gs.take(i + 1).map_values(
            |g: GrepLineView| (g.path, g.line),
        ));
        i = i + 1;
    }
    assert(gs.take(n as int) =~= gs);
    (out, warnings)
}

/// Every requested line that lies in the file, the first and the last
/// line included, is requested together with the lines around it: up to
/// `above` lines before it and `below` after it, as far as the file
/// reaches. A requested line is always one of the file's lines, within
/// `above` before or `below` after a requested line number that lies in
/// the file; line numbers outside `1..=len` request nothing.
pub proof fn law_requested_lines_covered(lines: Seq<usize>, len: nat, above: usize, below: usize)
    ensures
        forall|i: int, k: int|
            #![trigger lines[i], requested(lines, len, above, below, k)]
            0 <= i < lines.len() && 1 <= lines[i] <= len && lines[i] - above <= k <= lines[i] + below
                && 1 <= k <= len ==> requested(lines, len, above, below, k),
        forall|k: int|
            #[trigger] requested(lines, len, above, below, k) ==> 1 <= k <= len && exists|i: int|
                0 <= i < lines.len() && 1 <= #[trigger] lines[i] <= len && lines[i] - above <= k
                    <= lines[i] + below,
{
    assert forall|i: int, k: int|
        #![trigger lines[i], requested(lines, len, above, below, k)]
        0 <= i < lines.len() && 1 <= lines[i] <= len && lines[i] - above <= k <= lines[i] + below
            && 1 <= k <= len implies requested(lines, len, above, below, k) by {
        assert(line_in_file(lines[i], len));
        assert(line_range(lines[i], above, below, len).0 <= k <= line_range(
            lines[i],
            above,
            below,
            len,
        ).1);
    }
    assert forall|k: int| #[trigger] requested(lines, len, above, below, k) implies 1 <= k <= len
        && exists|i: int|
        0 <= i < lines.len() && 1 <= #[trigger] lines[i] <= len && lines[i] - above <= k <= lines[i]
            + below by {
        let i = choose|i: int|
            0 <= i < lines.len() && line_in_file(#[trigger] lines[i], len) && line_range(
                lines[i],
                above,
                below,
                len,
            ).0 <= k <= line_range(lines[i], above, below, len).1;
        assert(1 <= lines[i] <= len);
    }
}

/// The count of lines above does not depend on `--below`, nor the count
/// below on `--above`; a side that is not given takes the `--context`
/// count, and that count is 1 when `--context` is not given either.
pub proof fn law_context_sides_independent(
    context: Option<Seq<char>>,
    above: Option<Seq<char>>,
    below: Option<Seq<char>>,
    other: Option<Seq<char>>,
    k: usize,
)
    ensures
        match (context_spec(context, above, below), context_spec(context, above, other)) {
            (Ok(p), Ok(q)) => p.0 == q.0,
            _ => true,
        },
        match (context_spec(context, above, below), context_spec(context, other, below)) {
            (Ok(p), Ok(q)) => p.1 == q.1,
            _ => true,
        },
        context_spec(None, None, None) == Ok::<(usize, usize), Seq<char>>((1, 1)),
        context is Some && parse_usize_spec(context->0) == Some(k) ==> context_spec(
            context,
            None,
            None,
        ) == Ok::<(usize, usize), Seq<char>>((k, k)),
{
}

/// Whether an optional count is absent or a `usize`.
pub open spec fn count_valid(arg: Option<Seq<char>>) -> bool {
    match arg {
        Some(s) => parse_usize_spec(s) is Some,
        None => true,
    }
}

/// Reading the counts succeeds exactly when every count that is given is a
/// `usize`. An invalid `--context` is reported whatever `--above` and
/// `--below` say, and an invalid `--above` whatever `--below` says.
pub proof fn law_context_errors(
    context: Option<Seq<char>>,
    above: Option<Seq<char>>,
    below: Option<Seq<char>>,
)
    ensures
        context_spec(context, above, below) is Ok <==> count_valid(context) && count_valid(above)
            && count_valid(below),
        !count_valid(context) ==> context_spec(context, above, below) == Err::<(usize, usize), Seq<
            char,
        >>("Invalid number of context lines"@),
        count_valid(context) && !count_valid(above) ==> context_spec(context, above, below) == Err::<
            (usize, usize),
            Seq<char>,
        >("Invalid number of lines above"@),
        count_valid(context) && count_valid(above) && !count_valid(below) ==> context_spec(
            context,
            above,
            below,
        ) == Err::<(usize, usize), Seq<char>>("Invalid number of lines below"@),
{
}

} // verus!
