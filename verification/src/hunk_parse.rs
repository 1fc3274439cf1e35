//! Reading hunks back from their wire format.

use vstd::prelude::*;

use crate::hunk::{
    close_marker, header_close, header_line, header_open, hunk_views, render_header, wire_lines,
    Hunk, HunkView,
};
use crate::text::{
    chars_of, decimal, find_char, is_ws, hex, lemma_find_after_prefix, lemma_radix_chars_digits,
    lemma_rfind_before_suffix, has_prefix, has_suffix, index_of, last_index_of, parse_hex_u32,
    parse_hex_u32_spec, parse_usize, parse_usize_spec, rfind_char, string_of, sub_chars, trim,
    trim_bounds, views,
};

verus! {

broadcast use vstd::string::group_string_axioms;

/// The fields `(path, start, len, hash)` of a header line: `None` if the
/// line is no header (does not begin with `@@@`), `Some(None)` if it
/// begins like one but does not parse.
pub open spec fn header_fields(line: Seq<char>) -> Option<Option<(Seq<char>, usize, usize, u32)>> {
    if !has_prefix(line, close_marker()) {
        None
    } else if !(has_prefix(line, header_open()) && has_suffix(line.skip(4), header_close())) {
        Some(None)
    } else {
        let inner = line.subrange(4, line.len() - 4);
        let i1 = rfind_char(inner, ' ');
        if i1 < 0 {
            Some(None)
        } else {
            let hash_s = inner.subrange(i1 + 1, inner.len() as int);
            let rest = inner.subrange(0, i1);
            let i2 = rfind_char(rest, ' ');
            if i2 < 0 {
                Some(None)
            } else {
                let range_s = rest.subrange(i2 + 1, rest.len() as int);
                let path = rest.subrange(0, i2);
                let c = find_char(range_s, ',');
                if c >= range_s.len() {
                    Some(None)
                } else {
                    let start_s = range_s.subrange(0, c);
                    let len_s = range_s.subrange(c + 1, range_s.len() as int);
                    match (
                        parse_hex_u32_spec(hash_s),
                        parse_usize_spec(start_s),
                        parse_usize_spec(len_s),
                    ) {
                        (Some(hash), Some(start), Some(len)) => Some(Some((path, start, len, hash))),
                        _ => Some(None),
                    }
                }
            }
        }
    }
}

/// The hunk, with an empty body, that header fields describe.
pub open spec fn header_hunk(f: (Seq<char>, usize, usize, u32)) -> HunkView {
    HunkView { path: f.0, start: f.1, len: f.2, hash: f.3, body: Seq::empty() }
}

/// The warning for a line that looks like a header but does not parse.
pub open spec fn malformed_warning(line: Seq<char>) -> Seq<char> {
    "Malformed hunk header: "@ + line
}

/// Whether a line is the bare close marker, surrounding whitespace aside.
pub open spec fn is_close_line(line: Seq<char>) -> bool {
    trim(line) == close_marker()
}

/// Where a stream parse stands: the hunks closed so far, the warnings so
/// far, and the hunk whose body is being read.
pub struct ParseState {
    pub hunks: Seq<HunkView>,
    pub warnings: Seq<Seq<char>>,
    pub current: Option<HunkView>,
}

pub open spec fn initial_state() -> ParseState {
    ParseState { hunks: Seq::empty(), warnings: Seq::empty(), current: None }
}

/// Closes the open hunk, if there is one.
pub open spec fn flush(st: ParseState) -> ParseState {
    match st.current {
        Some(h) => ParseState { hunks: st.hunks.push(h), warnings: st.warnings, current: None },
        None => st,
    }
}

/// One line of the stream: a close marker closes the open hunk; a header
/// closes it and opens a new one; a malformed header closes it and adds a
/// warning; any other line joins the open hunk's body, or is ignored when
/// no hunk is open.
pub open spec fn parse_step(st: ParseState, line: Seq<char>) -> ParseState {
    if is_close_line(line) {
        flush(st)
    } else {
        match header_fields(line) {
            Some(Some(f)) => ParseState { current: Some(header_hunk(f)), ..flush(st) },
            Some(None) => {
                let f = flush(st);
                ParseState { warnings: f.warnings.push(malformed_warning(line)), ..f }
            },
            None => match st.current {
                Some(h) => ParseState {
                    current: Some(HunkView { body: h.body.push(line), ..h }),
                    ..st
                },
                None => st,
            },
        }
    }
}

/// The state after reading `lines` from `st`.
pub open spec fn parse_run(st: ParseState, lines: Seq<Seq<char>>) -> ParseState
    decreases lines.len(),
{
    if lines.len() == 0 {
        st
    } else {
        parse_step(parse_run(st, lines.drop_last()), lines.last())
    }
}

/// The hunks and warnings read from a whole stream; a hunk left open at
/// the end is kept.
pub open spec fn parse_all_spec(lines: Seq<Seq<char>>) -> (Seq<HunkView>, Seq<Seq<char>>) {
    let f = flush(parse_run(initial_state(), lines));
    (f.hunks, f.warnings)
}

pub open spec fn current_view(c: Option<Hunk>) -> Option<HunkView> {
    match c {
        Some(h) => Some(h@),
        None => None,
    }
}

fn warning_for(line: &str) -> (w: String)
    ensures
        w@ == malformed_warning(line@),
{
    let mut w = String::new();
    w.append("Malformed hunk header: ");
    w.append(line);
    assert(w@ =~= malformed_warning(line@));
    w
}

/// `None` if the line isn't a header; `Some(Err)` with a warning if it
/// looks like one but doesn't parse; `Some(Ok)` with an empty body
/// otherwise.
pub fn parse_header(line: &str) -> (res: Option<Result<Hunk, String>>)
    ensures
        match (res, header_fields(line@)) {
            (None, None) => true,
            (Some(Ok(h)), Some(Some(f))) => h@ == header_hunk(f),
            (Some(Err(w)), Some(None)) => w@ == malformed_warning(line@),
            _ => false,
        },
{
    let cs = chars_of(line);
    parse_header_chars(&cs, line)
}

fn parse_header_chars(cs: &Vec<char>, line: &str) -> (res: Option<Result<Hunk, String>>)
    requires
        cs@ == line@,
    ensures
        match (res, header_fields(line@)) {
            (None, None) => true,
            (Some(Ok(h)), Some(Some(f))) => h@ == header_hunk(f),
            (Some(Err(w)), Some(None)) => w@ == malformed_warning(line@),
            _ => false,
        },
{
    let n = cs.len();
    if !(n >= 3 && cs[0] == '@' && cs[1] == '@' && cs[2] == '@') {
        proof {
            if has_prefix(cs@, close_marker()) {
                assert(cs@.take(3)[0] == cs@[0]);
                assert(cs@.take(3)[1] == cs@[1]);
                assert(cs@.take(3)[2] == cs@[2]);
            }
        }
        return None;
    }
    assert(cs@.take(3) =~= close_marker());
    let framed = n >= 8 && cs[3] == ' ' && cs[n - 4] == ' ' && cs[n - 3] == '@' && cs[n - 2]
        == '@' && cs[n - 1] == '@';
    proof {
        if framed {
            assert(cs@.take(4) =~= header_open());
            assert(cs@.skip(4).skip(cs@.skip(4).len() - 4) =~= header_close());
        } else if has_prefix(cs@, header_open()) && has_suffix(cs@.skip(4), header_close()) {
            assert(cs@.take(4)[3] == cs@[3]);
            let t = cs@.skip(4);
            assert(t.skip(t.len() - 4)[0] == cs@[n - 4]);
            assert(t.skip(t.len() - 4)[1] == cs@[n - 3]);
            assert(t.skip(t.len() - 4)[2] == cs@[n - 2]);
            assert(t.skip(t.len() - 4)[3] == cs@[n - 1]);
        }
    }
    if !framed {
        return Some(Err(warning_for(line)));
    }
    let inner = sub_chars(cs, 4, n - 4);
    let i1 = match last_index_of(&inner, ' ') {
        Some(i) => i,
        None => return Some(Err(warning_for(line))),
    };
    proof {
        crate::text::lemma_rfind_char(inner@, ' ');
    }
    let hash_s = sub_chars(&inner, i1 + 1, inner.len());
    let rest = sub_chars(&inner, 0, i1);
    let i2 = match last_index_of(&rest, ' ') {
        Some(i) => i,
        None => return Some(Err(warning_for(line))),
    };
    proof {
        crate::text::lemma_rfind_char(rest@, ' ');
    }
    let range_s = sub_chars(&rest, i2 + 1, rest.len());
    let path = sub_chars(&rest, 0, i2);
    let c = index_of(&range_s, ',');
    if c >= range_s.len() {
        return Some(Err(warning_for(line)));
    }
    let start_s = sub_chars(&range_s, 0, c);
    let len_s = sub_chars(&range_s, c + 1, range_s.len());
    match (parse_hex_u32(&hash_s), parse_usize(&start_s), parse_usize(&len_s)) {
        (Some(hash), Some(start), Some(len)) => {
            let h = Hunk { path: string_of(&path), start, len, hash, body: Vec::new() };
            assert(h@.body =~= Seq::<Seq<char>>::empty());
            Some(Ok(h))
        },
        _ => Some(Err(warning_for(line))),
    }
}

/// Whether `cs[a..b]` is exactly `@@@`.
fn is_close_span(cs: &Vec<char>, a: usize, b: usize) -> (r: bool)
    requires
        a <= b <= cs@.len(),
    ensures
        r == (cs@.subrange(a as int, b as int) == close_marker()),
{
    let ghost t = cs@.subrange(a as int, b as int);
    if b - a != 3 {
        assert(close_marker().len() == 3);
        assert(t.len() != close_marker().len());
        return false;
    }
    assert(t[0] == cs@[a as int]);
    assert(t[1] == cs@[a + 1]);
    assert(t[2] == cs@[a + 2]);
    let r = cs[a] == '@' && cs[a + 1] == '@' && cs[a + 2] == '@';
    if r {
        assert(t =~= close_marker());
    }
    r
}

impl Hunk {
    /// Parse a stream into hunks. A header opens a hunk; following lines are
    /// its body until a bare `@@@`, the next header, or EOF. Content between a
    /// close and the next header (e.g. an editor's trailing newline) is
    /// ignored; a missing close is tolerated. Malformed headers become warnings.
    pub fn parse_all(lines: Vec<String>) -> (res: (Vec<Hunk>, Vec<String>))
        ensures
            (hunk_views(res.0@), views(res.1@)) == parse_all_spec(views(lines@)),
    {
        let mut hunks: Vec<Hunk> = Vec::new();
        let mut warnings: Vec<String> = Vec::new();
        let mut current: Option<Hunk> = None;
        let n = lines.len();
        let mut k: usize = 0;
        assert(hunk_views(hunks@) =~= Seq::<HunkView>::empty());
        assert(views(warnings@) =~= Seq::<Seq<char>>::empty());
        assert(views(lines@.take(0)) =~= Seq::<Seq<char>>::empty());
        while k < n
            invariant
                k <= n == lines@.len(),
                (ParseState {
                    hunks: hunk_views(hunks@),
                    warnings: views(warnings@),
                    current: current_view(current),
                }) == parse_run(initial_state(), views(lines@.take(k as int))),
            decreases n - k,
        {
            let line = lines[k].clone();
            let ghost before = ParseState {
                hunks: hunk_views(hunks@),
                warnings: views(warnings@),
                current: current_view(current),
            };
            let ghost seen = views(lines@.take(k as int));
            assert(views(lines@.take(k + 1)).drop_last() =~= seen);
            assert(views(lines@.take(k + 1)).last() == line@);
            let cs = chars_of(line.as_str());
            let (a, b) = trim_bounds(&cs);
            if is_close_span(&cs, a, b) {
                if let Some(h) = current.take() {
                    hunks.push(h);
                    assert(hunk_views(hunks@) =~= before.hunks.push(h@));
                }
                assert(parse_step(before, line@) == flush(before));
            } else {
                match parse_header_chars(&cs, line.as_str()) {
                    Some(Ok(h)) => {
                        if let Some(prev) = current.take() {
                            hunks.push(prev);
                            assert(hunk_views(hunks@) =~= before.hunks.push(prev@));
                        }
                        current = Some(h);
                    },
                    Some(Err(w)) => {
                        if let Some(prev) = current.take() {
                            hunks.push(prev);
                            assert(hunk_views(hunks@) =~= before.hunks.push(prev@));
                        }
                        warnings.push(w);
                        assert(views(warnings@) =~= flush(before).warnings.push(
                            malformed_warning(line@),
                        ));
                    },
                    None => {
                        if let Some(mut h) = current.take() {
                            let ghost hv = h@;
                            h.body.push(line);
                            assert(h@.body =~= hv.body.push(line@));
                            current = Some(h);
                        }
                    },
                }
            }
            k = k + 1;
        }
        if let Some(h) = current.take() {
            hunks.push(h);
        }
        assert(lines@.take(n as int) =~= lines@);
        (hunks, warnings)
    }
}

} // verus!

verus! {

/// A line that is not, whitespace aside, exactly `@@@` and does not begin
/// with `@@@`: any other text, an empty or blank line included.
pub open spec fn plain_line(line: Seq<char>) -> bool {
    trim(line) != close_marker() && !has_prefix(line, close_marker())
}

/// Two digit runs around a comma hold no space.
proof fn lemma_no_space_in_range(ds: Seq<char>, dl: Seq<char>)
    requires
        !ds.contains(' '),
        !dl.contains(' '),
    ensures
        !(ds + seq![','] + dl).contains(' '),
{
    let range_s = ds + seq![','] + dl;
    if range_s.contains(' ') {
        let i = choose|i: int| 0 <= i < range_s.len() && range_s[i] == ' ';
        if i < ds.len() {
            assert(ds[i] == ' ');
            assert(ds.contains(' '));
        } else if i > ds.len() {
            assert(dl[i - ds.len() - 1] == ' ');
            assert(dl.contains(' '));
        }
    }
}

/// The frame of a rendered header: its opening and closing markers, and
/// what they enclose.
proof fn lemma_header_frame(line: Seq<char>, inner: Seq<char>)
    requires
        line == header_open() + inner + header_close(),
    ensures
        has_prefix(line, close_marker()),
        has_prefix(line, header_open()),
        has_suffix(line.skip(4), header_close()),
        line.subrange(4, line.len() - 4) == inner,
{
    assert(line.take(3) =~= close_marker());
    assert(line.take(4) =~= header_open());
    let t = line.skip(4);
    assert(t.skip(t.len() - 4) =~= header_close());
    assert(line.subrange(4, line.len() - 4) =~= inner);
}

/// A rendered header reads back as the fields it was rendered from.
#[verifier::spinoff_prover]
pub proof fn lemma_header_fields_of_header_line(path: Seq<char>, start: usize, len: usize, hash: u32)
    ensures
        header_fields(header_line(path, start, len, hash)) == Some(Some((path, start, len, hash))),
{
    let ds = decimal(start as nat);
    let dl = decimal(len as nat);
    let xh = hex(hash as nat);
    lemma_radix_chars_digits(start as nat, 10);
    lemma_radix_chars_digits(len as nat, 10);
    lemma_radix_chars_digits(hash as nat, 16);
    let line = header_line(path, start, len, hash);
    let range_s = ds + seq![','] + dl;
    let rest = path + seq![' '] + range_s;
    let inner = rest + seq![' '] + xh;
    assert(line =~= header_open() + inner + header_close());
    lemma_header_frame(line, inner);
    lemma_rfind_before_suffix(rest, ' ', xh);
    assert(inner.subrange(rest.len() as int + 1, inner.len() as int) =~= xh);
    assert(inner.subrange(0, rest.len() as int) =~= rest);
    lemma_no_space_in_range(ds, dl);
    lemma_rfind_before_suffix(path, ' ', range_s);
    assert(rest.subrange(path.len() as int + 1, rest.len() as int) =~= range_s);
    assert(rest.subrange(0, path.len() as int) =~= path);
    lemma_find_after_prefix(ds, ',', dl);
    assert(range_s.subrange(0, ds.len() as int) =~= ds);
    assert(range_s.subrange(ds.len() as int + 1, range_s.len() as int) =~= dl);
    assert(parse_hex_u32_spec(xh) == Some(hash));
    assert(parse_usize_spec(ds) == Some(start));
    assert(parse_usize_spec(dl) == Some(len));
}

} // verus!

verus! {

/// A sequence that begins and ends with non-whitespace is its own trim.
proof fn lemma_trim_fixed(s: Seq<char>)
    requires
        s.len() > 0,
        !is_ws(s[0]),
        !is_ws(s.last()),
    ensures
        trim(s) == s,
{
}

/// Reading a header and then plain lines closes the hunk that was open and
/// leaves the new one open with those lines as its body.
proof fn lemma_run_header_and_body(st: ParseState, h: HunkView, i: int)
    requires
        0 <= i <= h.body.len(),
        forall|j: int| 0 <= j < h.body.len() ==> plain_line(#[trigger] h.body[j]),
    ensures
        parse_run(st, seq![header_line(h.path, h.start, h.len, h.hash)] + h.body.take(i))
            == (ParseState {
            hunks: flush(st).hunks,
            warnings: st.warnings,
            current: Some(HunkView { body: h.body.take(i), ..h }),
        }),
    decreases i,
{
    let hdr = header_line(h.path, h.start, h.len, h.hash);
    let lines = seq![hdr] + h.body.take(i);
    if i == 0 {
        lemma_header_fields_of_header_line(h.path, h.start, h.len, h.hash);
        assert(hdr[0] == '@');
        assert(hdr.last() == '@');
        lemma_trim_fixed(hdr);
        assert(hdr.len() > 3);
        assert(!is_close_line(hdr));
        assert(lines.drop_last().len() == 0);
        assert(h.body.take(0) =~= Seq::<Seq<char>>::empty());
        assert(header_hunk((h.path, h.start, h.len, h.hash)) == HunkView {
            body: h.body.take(0),
            ..h
        });
        assert(lines.last() == hdr);
        assert(parse_run(st, lines.drop_last()) == st);
        assert(parse_run(st, lines) == parse_step(st, hdr));
    } else {
        lemma_run_header_and_body(st, h, i - 1);
        assert(lines.drop_last() =~= seq![hdr] + h.body.take(i - 1));
        assert(lines.last() == h.body[i - 1]);
        let line = h.body[i - 1];
        assert(plain_line(line));
        assert(header_fields(line) is None);
        assert(h.body.take(i - 1).push(line) =~= h.body.take(i));
        assert(parse_run(st, lines) == parse_step(parse_run(st, lines.drop_last()), line));
    }
}

/// Reading `a` then `b` is reading `a + b`.
proof fn lemma_parse_run_append(st: ParseState, a: Seq<Seq<char>>, b: Seq<Seq<char>>)
    ensures
        parse_run(st, a + b) == parse_run(parse_run(st, a), b),
    decreases b.len(),
{
    if b.len() == 0 {
        assert(a + b =~= a);
    } else {
        lemma_parse_run_append(st, a, b.drop_last());
        assert((a + b).drop_last() =~= a + b.drop_last());
        assert((a + b).last() == b.last());
    }
}

/// An empty or whitespace-only line read while a hunk is open joins that
/// hunk's body: only a line that trims to exactly `@@@` closes a hunk.
pub proof fn law_blank_line_stays_in_body(st: ParseState, h: HunkView, line: Seq<char>)
    requires
        st.current == Some(h),
        trim(line).len() == 0,
    ensures
        parse_step(st, line) == (ParseState {
            current: Some(HunkView { body: h.body.push(line), ..h }),
            ..st
        }),
{
    crate::text::lemma_trim_empty(line);
    assert(trim(line) != close_marker());
    if has_prefix(line, close_marker()) {
        assert(line.take(3)[0] == line[0]);
        assert(is_ws(line[0]));
    }
}

/// Parsing the lines of a rendered hunk gives back that hunk, its body line
/// for line, and no warning, for every body whose lines are plain: none
/// trims to exactly `@@@` or begins with `@@@`; empty and blank lines are
/// plain.
pub proof fn law_parse_inverts_render(h: HunkView)
    requires
        forall|j: int| 0 <= j < h.body.len() ==> plain_line(#[trigger] h.body[j]),
    ensures
        parse_all_spec(wire_lines(h)) == (seq![h], Seq::<Seq<char>>::empty()),
{
    let hdr = header_line(h.path, h.start, h.len, h.hash);
    let wire = wire_lines(h);
    lemma_run_header_and_body(initial_state(), h, h.body.len() as int);
    assert(h.body.take(h.body.len() as int) =~= h.body);
    assert(wire.drop_last() =~= seq![hdr] + h.body.take(h.body.len() as int));
    assert(wire.last() == close_marker());
    lemma_trim_fixed(close_marker());
    assert(is_close_line(close_marker()));
    assert(seq![h] =~= Seq::<HunkView>::empty().push(h));
}

/// A header followed by the body: how a hunk reads in a stream, where the
/// next header closes it.
pub open spec fn open_lines(h: HunkView) -> Seq<Seq<char>> {
    seq![header_line(h.path, h.start, h.len, h.hash)] + h.body
}

/// The open lines of the hunks, one after the other.
pub open spec fn stream_body(hs: Seq<HunkView>) -> Seq<Seq<char>>
    decreases hs.len(),
{
    if hs.len() == 0 {
        Seq::empty()
    } else {
        stream_body(hs.drop_last()) + open_lines(hs.last())
    }
}

/// The stream that expanding prints: each hunk's header and body, then a
/// single close marker after the last hunk.
pub open spec fn stream_lines(hs: Seq<HunkView>) -> Seq<Seq<char>> {
    if hs.len() == 0 {
        Seq::empty()
    } else {
        stream_body(hs) + seq![close_marker()]
    }
}

/// Hunks whose body lines all stay plain on the wire.
pub open spec fn plain_hunks(hs: Seq<HunkView>) -> bool {
    forall|i: int, j: int|
        0 <= i < hs.len() && 0 <= j < hs[i].body.len() ==> plain_line(#[trigger] hs[i].body[j])
}

proof fn lemma_run_stream_body(hs: Seq<HunkView>)
    requires
        hs.len() > 0,
        plain_hunks(hs),
    ensures
        parse_run(initial_state(), stream_body(hs)) == (ParseState {
            hunks: hs.drop_last(),
            warnings: Seq::empty(),
            current: Some(hs.last()),
        }),
    decreases hs.len(),
{
    let h = hs.last();
    let prefix = stream_body(hs.drop_last());
    assert forall|j: int| 0 <= j < h.body.len() implies plain_line(#[trigger] h.body[j]) by {
        assert(plain_line(hs[hs.len() - 1].body[j]));
    }
    lemma_parse_run_append(initial_state(), prefix, open_lines(h));
    let st = parse_run(initial_state(), prefix);
    if hs.len() == 1 {
        assert(prefix =~= Seq::<Seq<char>>::empty());
        assert(hs.drop_last() =~= Seq::<HunkView>::empty());
    } else {
        let init = hs.drop_last();
        assert forall|i: int, j: int|
            0 <= i < init.len() && 0 <= j < init[i].body.len() implies plain_line(
            #[trigger] init[i].body[j],
        ) by {
            assert(init[i] == hs[i]);
        }
        lemma_run_stream_body(init);
        assert(init.drop_last().push(init.last()) =~= hs.drop_last());
    }
    lemma_run_header_and_body(st, h, h.body.len() as int);
    assert(h.body.take(h.body.len() as int) =~= h.body);
    assert(open_lines(h) == seq![header_line(h.path, h.start, h.len, h.hash)] + h.body.take(
        h.body.len() as int,
    ));
}

/// Parsing the stream that expanding prints gives back the hunks, in order,
/// and no warning, provided no body line reads as a close marker or begins
/// like a header.
pub proof fn law_parse_inverts_stream(hs: Seq<HunkView>)
    requires
        plain_hunks(hs),
    ensures
        parse_all_spec(stream_lines(hs)) == (hs, Seq::<Seq<char>>::empty()),
{
    if hs.len() == 0 {
        assert(stream_lines(hs) =~= Seq::<Seq<char>>::empty());
        assert(hs =~= Seq::<HunkView>::empty());
    } else {
        let body = stream_body(hs);
        lemma_run_stream_body(hs);
        let wire = stream_lines(hs);
        assert(wire.drop_last() =~= body);
        assert(wire.last() == close_marker());
        lemma_trim_fixed(close_marker());
        assert(is_close_line(close_marker()));
        assert(hs.drop_last().push(hs.last()) =~= hs);
    }
}

/// A line that is `@@@` with whitespace around it closes the open hunk, as
/// the bare marker does.
pub proof fn law_padded_close_marker_closes(st: ParseState, line: Seq<char>)
    requires
        trim(line) == close_marker(),
    ensures
        parse_step(st, line) == flush(st),
{
}

/// Lines read while no hunk is open (what stands between a close marker
/// and the next header) are ignored, as long as none is a header.
pub proof fn law_stray_lines_ignored(st: ParseState, lines: Seq<Seq<char>>)
    requires
        st.current is None,
        forall|j: int| 0 <= j < lines.len() ==> plain_line(#[trigger] lines[j]),
    ensures
        parse_run(st, lines) == st,
    decreases lines.len(),
{
    if lines.len() > 0 {
        let init = lines.drop_last();
        assert forall|j: int| 0 <= j < init.len() implies plain_line(#[trigger] init[j]) by {
            assert(init[j] == lines[j]);
        }
        law_stray_lines_ignored(st, init);
        assert(plain_line(lines[lines.len() - 1]));
    }
}

/// A stream whose close marker is missing still gives back every hunk, in
/// order, and no warning: the hunk left open at the end is kept.
pub proof fn law_missing_close_tolerated(hs: Seq<HunkView>)
    requires
        plain_hunks(hs),
    ensures
        parse_all_spec(stream_body(hs)) == (hs, Seq::<Seq<char>>::empty()),
{
    if hs.len() == 0 {
        assert(stream_body(hs) =~= Seq::<Seq<char>>::empty());
        assert(hs =~= Seq::<HunkView>::empty());
    } else {
        lemma_run_stream_body(hs);
        assert(hs.drop_last().push(hs.last()) =~= hs);
    }
}

/// Each hunk's header and body, one after the other, with no close marker.
pub fn render_open_lines(hunks: &[Hunk]) -> (lines: Vec<String>)
    ensures
        views(lines@) == stream_body(hunk_views(hunks@)),
{
    let mut out: Vec<String> = Vec::new();
    let n = hunks.len();
    let mut i: usize = 0;
    while i < n
        invariant
            i <= n == hunks@.len(),
            views(out@) == stream_body(hunk_views(hunks@.take(i as int))),
        decreases n - i,
    {
        let ghost before = views(out@);
        let h = &hunks[i];
        out.push(render_header(h));
        let body = crate::expand::clone_lines(h.body.as_slice(), 0, h.body.len());
        let mut j: usize = 0;
        assert(views(out@) =~= before + open_lines(h@).take(1));
        while j < body.len()
            invariant
                j <= body@.len(),
                views(body@) == h@.body,
                views(out@) == before + open_lines(h@).take(j + 1),
            decreases body@.len() - j,
        {
            let ghost prev = out@;
            let c = body[j].clone();
            assert(c@ == views(body@)[j as int]);
            out.push(c);
            assert(out@ == prev.push(c));
            assert(views(out@) =~= views(prev).push(c@));
            assert(open_lines(h@).take(j + 2) =~= open_lines(h@).take(j + 1).push(h@.body[j as int]));
            assert(views(out@) =~= before + open_lines(h@).take(j + 2));
            j = j + 1;
        }
        assert(open_lines(h@).take(body@.len() as int + 1) =~= open_lines(h@));
        let ghost hv = hunk_views(hunks@.take(i + 1));
        assert(hv.drop_last() =~= hunk_views(hunks@.take(i as int)));
        assert(hv.last() == h@);
        i = i + 1;
    }
    assert(hunks@.take(n as int) =~= hunks@);
    out
}

/// The bare close marker, `@@@`.
pub fn close_line() -> (res: String)
    ensures
        res@ == close_marker(),
{
    let mut close = String::new();
    close.append("@@@");
    proof {
        reveal_strlit("@@@");
    }
    assert(close@ =~= close_marker());
    close
}

/// The lines of the stream that expanding prints for `hunks`: each hunk's
/// header and body, then one close marker after the last hunk (none when
/// there is no hunk).
pub fn render_stream(hunks: &[Hunk]) -> (lines: Vec<String>)
    ensures
        views(lines@) == stream_lines(hunk_views(hunks@)),
{
    let mut out = render_open_lines(hunks);
    if hunks.len() > 0 {
        let ghost before = views(out@);
        out.push(close_line());
        assert(views(out@) =~= before + seq![close_marker()]);
    } else {
        assert(views(out@) =~= Seq::<Seq<char>>::empty());
    }
    out
}

/// The open lines of two runs of hunks, one after the other, are those of
/// the two runs together: printing file by file and closing once at the
/// end prints the stream of all the hunks.
pub proof fn law_stream_body_concat(a: Seq<HunkView>, b: Seq<HunkView>)
    ensures
        stream_body(a + b) == stream_body(a) + stream_body(b),
    decreases b.len(),
{
    if b.len() == 0 {
        assert(a + b =~= a);
        assert(stream_body(a) + stream_body(b) =~= stream_body(a));
    } else {
        law_stream_body_concat(a, b.drop_last());
        assert((a + b).drop_last() =~= a + b.drop_last());
        assert((a + b).last() == b.last());
        assert(stream_body(a) + stream_body(b) =~= stream_body(a) + stream_body(b.drop_last())
            + open_lines(b.last()));
    }
}

} // verus!
