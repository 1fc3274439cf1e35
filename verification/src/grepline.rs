//! Vimgrep-style lines: `path:line`, `path:line:content` or
//! `path:line:col:content`.

use vstd::prelude::*;

use crate::errors::AppError;
use crate::text::{
    all_digits, chars_of, decimal, find_char, index_of, is_ws, lemma_find_absent,
    lemma_find_after_prefix, lemma_radix_chars_digits, lemma_trim_empty, parse_usize,
    parse_usize_spec, string_of, sub_chars, trim, trim_bounds, views,
};

verus! {

broadcast use vstd::string::group_string_axioms;

/// A parsed vimgrep-style line: `path : line : [col] : content`.
///
/// Field count varies by tool — `file:line` (2), `grep -Hn` (3),
/// `rg --vimgrep` / `ugrep -HknI` (4). `expand` needs `path`+`line`;
/// raw-mode `write` needs `content`.
pub struct GrepLine {
    pub path: String,
    pub line: usize,
    /// Parsed for completeness; the commands do not consume it.
    pub col: Option<usize>,
    pub content: Option<String>,
}

/// The mathematical value of a [`GrepLine`].
pub struct GrepLineView {
    pub path: Seq<char>,
    pub line: usize,
    pub col: Option<usize>,
    pub content: Option<Seq<char>>,
}

impl View for GrepLine {
    type V = GrepLineView;

    open spec fn view(&self) -> GrepLineView {
        GrepLineView {
            path: self.path@,
            line: self.line,
            col: self.col,
            content: match self.content {
                Some(c) => Some(c@),
                None => None,
            },
        }
    }
}

/// What a raw line reads as.
pub enum GrepParse {
    /// Nothing but whitespace.
    Blank,
    Parsed(GrepLineView),
    /// No `:` at all.
    BadFormat,
    /// The second field, which is no line number.
    BadLineNumber(Seq<char>),
}

/// The fields after the line number: `col:content` when the first of them
/// is all ASCII digits and more follows, else one content field that keeps
/// its colons.
pub open spec fn tail_fields(t: Seq<char>) -> (Option<usize>, Seq<char>) {
    let i3 = find_char(t, ':');
    if i3 < t.len() {
        let maybe_col = t.subrange(0, i3);
        let rest = t.subrange(i3 + 1, t.len() as int);
        if maybe_col.len() > 0 && all_digits(maybe_col, 10) {
            (parse_usize_spec(maybe_col), rest)
        } else {
            (None, t)
        }
    } else {
        (None, t)
    }
}

/// How `raw` reads: split at the first three colons (`splitn(4, ':')`).
pub open spec fn grep_parse_spec(raw: Seq<char>) -> GrepParse {
    if trim(raw).len() == 0 {
        GrepParse::Blank
    } else {
        let i1 = find_char(raw, ':');
        if i1 >= raw.len() {
            GrepParse::BadFormat
        } else {
            let path = raw.subrange(0, i1);
            let r1 = raw.subrange(i1 + 1, raw.len() as int);
            let i2 = find_char(r1, ':');
            let num = r1.subrange(0, i2);
            match parse_usize_spec(num) {
                None => GrepParse::BadLineNumber(num),
                Some(line) => if i2 >= r1.len() {
                    GrepParse::Parsed(GrepLineView { path, line, col: None, content: None })
                } else {
                    let t = r1.subrange(i2 + 1, r1.len() as int);
                    let (col, content) = tail_fields(t);
                    GrepParse::Parsed(GrepLineView { path, line, col, content: Some(content) })
                },
            }
        }
    }
}

fn all_ascii_digits(s: &Vec<char>) -> (r: bool)
    ensures
        r == all_digits(s@, 10),
{
    let mut i: usize = 0;
    while i < s.len()
        invariant
            i <= s@.len(),
            forall|j: int| 0 <= j < i ==> crate::text::digit_of(#[trigger] s@[j], 10) >= 0,
        decreases s@.len() - i,
    {
        let v = s[i] as u32;
        if !(48 <= v && v <= 57) {
            assert(crate::text::digit_of(s@[i as int], 10) < 0);
            return false;
        }
        i = i + 1;
    }
    true
}

impl GrepLine {
    /// Parse one line. `Ok(None)` for blank lines; `Err` for malformed input
    /// (the caller decides whether to warn-and-skip).
    pub fn parse(raw: &str) -> (res: Result<Option<GrepLine>, AppError>)
        ensures
            match res {
                Ok(None) => grep_parse_spec(raw@) == GrepParse::Blank,
                Ok(Some(g)) => grep_parse_spec(raw@) == GrepParse::Parsed(g@),
                Err(AppError::InvalidLineFormat(s)) => grep_parse_spec(raw@) == GrepParse::BadFormat
                    && s@ == raw@,
                Err(AppError::InvalidLineNumber(s)) => grep_parse_spec(raw@)
                    == GrepParse::BadLineNumber(s@),
                Err(_) => false,
            },
    {
        let cs = chars_of(raw);
        let (a, b) = trim_bounds(&cs);
        if a == b {
            return Ok(None);
        }
        let n = cs.len();
        let i1 = index_of(&cs, ':');
        if i1 >= n {
            return Err(AppError::InvalidLineFormat(string_of(&cs)));
        }
        let path = sub_chars(&cs, 0, i1);
        let r1 = sub_chars(&cs, i1 + 1, n);
        let i2 = index_of(&r1, ':');
        proof {
            crate::text::lemma_find_char(r1@, ':');
        }
        let num = sub_chars(&r1, 0, i2);
        let line = match parse_usize(&num) {
            Some(v) => v,
            None => return Err(AppError::InvalidLineNumber(string_of(&num))),
        };
        if i2 >= r1.len() {
            return Ok(Some(GrepLine { path: string_of(&path), line, col: None, content: None }));
        }
        let t = sub_chars(&r1, i2 + 1, r1.len());
        let i3 = index_of(&t, ':');
        let mut col: Option<usize> = None;
        let mut content = t.clone();
        if i3 < t.len() {
            let maybe_col = sub_chars(&t, 0, i3);
            if maybe_col.len() > 0 && all_ascii_digits(&maybe_col) {
                col = parse_usize(&maybe_col);
                content = sub_chars(&t, i3 + 1, t.len());
            }
        }
        let g = GrepLine { path: string_of(&path), line, col, content: Some(string_of(&content)) };
        Ok(Some(g))
    }
}

/// The warning a line gives that reads as no grep line (empty otherwise):
/// the message of the error `GrepLine::parse` returns for it.
pub open spec fn parse_warning(raw: Seq<char>) -> Seq<char> {
    match grep_parse_spec(raw) {
        GrepParse::BadFormat => "Invalid line format: "@ + raw,
        GrepParse::BadLineNumber(s) => "Invalid line number: "@ + s,
        _ => Seq::empty(),
    }
}

/// The grep lines that `input` holds, in order; blank and malformed lines
/// left out.
pub open spec fn parsed_lines(input: Seq<Seq<char>>) -> Seq<GrepLineView>
    decreases input.len(),
{
    if input.len() == 0 {
        Seq::empty()
    } else {
        let prev = parsed_lines(input.drop_last());
        match grep_parse_spec(input.last()) {
            GrepParse::Parsed(g) => prev.push(g),
            _ => prev,
        }
    }
}

/// The warnings for the malformed lines of `input`, in order.
pub open spec fn parse_warnings(input: Seq<Seq<char>>) -> Seq<Seq<char>>
    decreases input.len(),
{
    if input.len() == 0 {
        Seq::empty()
    } else {
        let prev = parse_warnings(input.drop_last());
        match grep_parse_spec(input.last()) {
            GrepParse::BadFormat => prev.push(parse_warning(input.last())),
            GrepParse::BadLineNumber(_) => prev.push(parse_warning(input.last())),
            _ => prev,
        }
    }
}

pub open spec fn grep_views(v: Seq<GrepLine>) -> Seq<GrepLineView> {
    v.map_values(|g: GrepLine| g@)
}

/// Reads every line of `input`: the grep lines it holds, and a warning for
/// each malformed one (blank lines are skipped silently).
pub fn parse_lines(input: &[String]) -> (res: (Vec<GrepLine>, Vec<String>))
    ensures
        grep_views(res.0@) == parsed_lines(views(input@)),
        views(res.1@) == parse_warnings(views(input@)),
{
    let mut lines: Vec<GrepLine> = Vec::new();
    let mut warnings: Vec<String> = Vec::new();
    let n = input.len();
    let mut i: usize = 0;
    while i < n
        invariant
            i <= n == input@.len(),
            grep_views(lines@) == parsed_lines(views(input@.take(i as int))),
            views(warnings@) == parse_warnings(views(input@.take(i as int))),
        decreases n - i,
    {
        let ghost seen = views(input@.take(i + 1));
        assert(seen.drop_last() =~= views(input@.take(i as int)));
        assert(seen.last() == input@[i as int]@);
        let ghost before_lines = lines@;
        let ghost before_warnings = warnings@;
        match GrepLine::parse(input[i].as_str()) {
            Ok(Some(g)) => {
                lines.push(g);
                assert(grep_views(lines@) =~= grep_views(before_lines).push(g@));
            },
            Ok(None) => {},
            Err(e) => {
                let m = e.message();
                warnings.push(m);
                assert(views(warnings@) =~= views(before_warnings).push(m@));
            },
        }
        i = i + 1;
    }
    assert(input@.take(n as int) =~= input@);
    (lines, warnings)
}

/// The `path:line` prefix of a grep line reads back, whatever follows it.
proof fn lemma_path_and_line(path: Seq<char>, n: usize, tail: Seq<char>)
    requires
        !path.contains(':'),
    ensures
        ({
            let raw = path + seq![':'] + decimal(n as nat) + tail;
            &&& trim(raw).len() > 0
            &&& find_char(raw, ':') == path.len()
            &&& raw.subrange(0, path.len() as int) == path
            &&& raw.subrange(path.len() as int + 1, raw.len() as int) == decimal(n as nat) + tail
        }),
{
    let raw = path + seq![':'] + decimal(n as nat) + tail;
    if trim(raw).len() == 0 {
        lemma_trim_empty(raw);
        assert(raw[path.len() as int] == ':');
        assert(is_ws(':'));
    }
    assert(raw =~= path + seq![':'] + (decimal(n as nat) + tail));
    lemma_find_after_prefix(path, ':', decimal(n as nat) + tail);
    assert(raw.subrange(0, path.len() as int) =~= path);
    assert(raw.subrange(path.len() as int + 1, raw.len() as int) =~= decimal(n as nat) + tail);
}

/// `path:line` reads as that path and line, when the path holds no colon.
pub proof fn law_grep_two_fields(path: Seq<char>, n: usize)
    requires
        !path.contains(':'),
    ensures
        grep_parse_spec(path + seq![':'] + decimal(n as nat)) == GrepParse::Parsed(
            GrepLineView { path, line: n, col: None, content: None },
        ),
{
    let d = decimal(n as nat);
    lemma_path_and_line(path, n, Seq::empty());
    assert(path + seq![':'] + d + Seq::<char>::empty() =~= path + seq![':'] + d);
    assert(d + Seq::<char>::empty() =~= d);
    lemma_radix_chars_digits(n as nat, 10);
    lemma_find_absent(d, ':');
    assert(d.subrange(0, d.len() as int) =~= d);
}

/// `path:line:col:content` (`rg --vimgrep`) reads as its four fields, when
/// the path holds no colon; the content may hold any.
pub proof fn law_grep_four_fields(path: Seq<char>, n: usize, col: usize, content: Seq<char>)
    requires
        !path.contains(':'),
    ensures
        grep_parse_spec(
            path + seq![':'] + decimal(n as nat) + seq![':'] + decimal(col as nat) + seq![':']
                + content,
        ) == GrepParse::Parsed(
            GrepLineView { path, line: n, col: Some(col), content: Some(content) },
        ),
{
    let d = decimal(n as nat);
    let dc = decimal(col as nat);
    let t = dc + seq![':'] + content;
    let tail = seq![':'] + t;
    let raw = path + seq![':'] + d + seq![':'] + dc + seq![':'] + content;
    assert(raw =~= path + seq![':'] + d + tail);
    lemma_path_and_line(path, n, tail);
    lemma_radix_chars_digits(n as nat, 10);
    lemma_radix_chars_digits(col as nat, 10);
    let r1 = d + tail;
    lemma_find_after_prefix(d, ':', t);
    assert(r1 =~= d + seq![':'] + t);
    assert(r1.subrange(0, d.len() as int) =~= d);
    assert(r1.subrange(d.len() as int + 1, r1.len() as int) =~= t);
    lemma_find_after_prefix(dc, ':', content);
    assert(t.subrange(0, dc.len() as int) =~= dc);
    assert(t.subrange(dc.len() as int + 1, t.len() as int) =~= content);
}

/// Whether `content` begins with digits followed by `:`, which a grep
/// line's third field reads as a column.
pub open spec fn starts_with_column(content: Seq<char>) -> bool {
    let i = find_char(content, ':');
    0 < i < content.len() && all_digits(content.subrange(0, i), 10)
}

/// `path:line:content` (`grep -Hn`) reads as its three fields, when the
/// path holds no colon and the content does not begin with digits and a
/// colon.
pub proof fn law_grep_three_fields(path: Seq<char>, n: usize, content: Seq<char>)
    requires
        !path.contains(':'),
        !starts_with_column(content),
    ensures
        grep_parse_spec(path + seq![':'] + decimal(n as nat) + seq![':'] + content)
            == GrepParse::Parsed(GrepLineView { path, line: n, col: None, content: Some(content) }),
{
    let d = decimal(n as nat);
    let tail = seq![':'] + content;
    assert(path + seq![':'] + d + seq![':'] + content =~= path + seq![':'] + d + tail);
    lemma_path_and_line(path, n, tail);
    lemma_radix_chars_digits(n as nat, 10);
    let r1 = d + tail;
    lemma_find_after_prefix(d, ':', content);
    assert(r1 =~= d + seq![':'] + content);
    assert(r1.subrange(0, d.len() as int) =~= d);
    assert(r1.subrange(d.len() as int + 1, r1.len() as int) =~= content);
    crate::text::lemma_find_char(content, ':');
}

} // verus!
