//! Hunks: a block of file lines framed by a header
//! `@@@ path start,len hash @@@` and a bare `@@@`.

use vstd::prelude::*;
use vstd::utf8::encode_utf8;

use crate::text::{
    decimal, hex, join_lines, join_strings, push_char, push_radix, views,
};

verus! {

broadcast use vstd::string::group_string_axioms;

/// A block of file lines framed by `@@@ path start,len hash @@@` and a bare
/// `@@@`. `start` is 1-based; `len` and `hash` describe the original region.
/// The hash is a staleness guard, not a checksum of `body` (which may be
/// edited between expand and write).
pub struct Hunk {
    pub path: String,
    pub start: usize,
    pub len: usize,
    pub hash: u32,
    pub body: Vec<String>,
}

/// The mathematical value of a [`Hunk`].
pub struct HunkView {
    pub path: Seq<char>,
    pub start: usize,
    pub len: usize,
    pub hash: u32,
    pub body: Seq<Seq<char>>,
}

impl View for Hunk {
    type V = HunkView;

    open spec fn view(&self) -> HunkView {
        HunkView {
            path: self.path@,
            start: self.start,
            len: self.len,
            hash: self.hash,
            body: views(self.body@),
        }
    }
}

/// The views of a sequence of hunks.
pub open spec fn hunk_views(v: Seq<Hunk>) -> Seq<HunkView> {
    v.map_values(|h: Hunk| h@)
}

// ---------------------------------------------------------------------------
// Hashing
// ---------------------------------------------------------------------------

/// The 32-bit xxHash of `data` under `seed`, as `xxhash_rust::xxh32::xxh32`
/// computes it.
pub uninterp spec fn xxh32_digest(data: Seq<u8>, seed: u32) -> u32;

/// `xxhash_rust::xxh32::xxh32`: the XXH32 digest of `data` with `seed`.
/// It is a pure function of its two arguments; the contract names that
/// function and claims nothing more of it.
#[verifier::external_body]
fn xxh32(data: &[u8], seed: u32) -> (h: u32)
    ensures
        h == xxh32_digest(data@, seed),
{
    xxhash_rust::xxh32::xxh32(data, seed)
}

/// The hash of a region: XXH32 (seed 0) of the UTF-8 bytes of its lines
/// joined with `'\n'`.
pub open spec fn hash_lines_spec(lines: Seq<Seq<char>>) -> u32 {
    xxh32_digest(encode_utf8(join_lines(lines)), 0)
}

pub fn hash_lines(lines: &[String]) -> (h: u32)
    ensures
        h == hash_lines_spec(views(lines@)),
{
    let joined = join_strings(lines);
    xxh32(joined.as_str().as_bytes(), 0)
}

// ---------------------------------------------------------------------------
// The wire format
// ---------------------------------------------------------------------------

/// The bare marker that closes a hunk body.
pub open spec fn close_marker() -> Seq<char> {
    seq!['@', '@', '@']
}

pub open spec fn header_open() -> Seq<char> {
    seq!['@', '@', '@', ' ']
}

pub open spec fn header_close() -> Seq<char> {
    seq![' ', '@', '@', '@']
}

/// `@@@ {path} {start},{len} {hash:x} @@@`.
pub open spec fn header_line(path: Seq<char>, start: usize, len: usize, hash: u32) -> Seq<char> {
    header_open() + path + seq![' '] + decimal(start as nat) + seq![','] + decimal(len as nat)
        + seq![' '] + hex(hash as nat) + header_close()
}

/// The lines of a rendered hunk: header, body, close marker.
pub open spec fn wire_lines(h: HunkView) -> Seq<Seq<char>> {
    seq![header_line(h.path, h.start, h.len, h.hash)] + h.body + seq![close_marker()]
}

/// The hunk that `from_region` builds.
pub open spec fn region_hunk(path: Seq<char>, start: usize, body: Seq<Seq<char>>) -> HunkView {
    HunkView { path, start, len: body.len() as usize, hash: hash_lines_spec(body), body }
}

/// Whether the region `start,len` (1-based `start`) lies within `n` lines.
pub open spec fn fits(start: usize, len: usize, n: nat) -> bool {
    start >= 1 && start - 1 + len <= n
}

/// The region `start,len` of `file`.
pub open spec fn region(file: Seq<Seq<char>>, start: usize, len: usize) -> Seq<Seq<char>> {
    file.subrange(start - 1, start - 1 + len)
}

/// Whether the file's region under `h` still hashes to `h`'s header hash.
pub open spec fn hunk_matches(h: HunkView, file: Seq<Seq<char>>) -> bool {
    fits(h.start, h.len, file.len()) && hash_lines_spec(region(file, h.start, h.len)) == h.hash
}

fn push_close(out: &mut String)
    ensures
        final(out)@ == old(out)@ + close_marker(),
{
    push_char(out, '@');
    push_char(out, '@');
    push_char(out, '@');
    assert(final(out)@ =~= old(out)@ + close_marker());
}

/// The header line of `hunk`, `@@@ {path} {start},{len} {hash:x} @@@`.
pub fn render_header(hunk: &Hunk) -> (res: String)
    ensures
        res@ == header_line(hunk.path@, hunk.start, hunk.len, hunk.hash),
{
    let mut out = String::new();
    push_close(&mut out);
    push_char(&mut out, ' ');
    out.append(hunk.path.as_str());
    push_char(&mut out, ' ');
    push_radix(&mut out, hunk.start as u64, 10);
    push_char(&mut out, ',');
    push_radix(&mut out, hunk.len as u64, 10);
    push_char(&mut out, ' ');
    push_radix(&mut out, hunk.hash as u64, 16);
    push_char(&mut out, ' ');
    push_close(&mut out);
    assert(out@ =~= header_line(hunk.path@, hunk.start, hunk.len, hunk.hash));
    out
}

impl Hunk {
    /// Build a hunk from a file region (expand side); the hash covers `body`.
    pub fn from_region(path: String, start: usize, body: Vec<String>) -> (h: Hunk)
        ensures
            h@ == region_hunk(path@, start, views(body@)),
    {
        let hash = hash_lines(body.as_slice());
        Hunk { path, start, len: body.len(), hash, body }
    }

    /// Render header + body + close marker as it appears on the wire.
    pub fn render(&self) -> (res: String)
        ensures
            res@ == join_lines(wire_lines(self@)),
    {
        let mut out = render_header(self);
        let ghost head = seq![header_line(self.path@, self.start, self.len, self.hash)];
        let n = self.body.len();
        let mut i: usize = 0;
        assert(head + views(self.body@.take(0)) =~= head);
        while i < n
            invariant
                i <= n == self.body@.len(),
                head == seq![header_line(self.path@, self.start, self.len, self.hash)],
                out@ == join_lines(head + views(self.body@.take(i as int))),
            decreases n - i,
        {
            let ghost prev = head + views(self.body@.take(i as int));
            let ghost next = head + views(self.body@.take(i + 1));
            assert(next.drop_last() =~= prev);
            assert(next.last() == self.body@[i as int]@);
            push_char(&mut out, '\n');
            out.append(self.body[i].as_str());
            assert(out@ =~= join_lines(prev) + seq!['\n'] + next.last());
            assert(next.len() == i + 2);
            assert(join_lines(next) == join_lines(next.drop_last()) + seq!['\n'] + next.last());
            i = i + 1;
        }
        let ghost lines = head + views(self.body@);
        assert(self.body@.take(n as int) == self.body@);
        push_char(&mut out, '\n');
        push_close(&mut out);
        assert((lines + seq![close_marker()]).drop_last() =~= lines);
        assert(wire_lines(self@) =~= lines + seq![close_marker()]);
        out
    }

    /// True if the file's current region still hashes to the header hash;
    /// false if it drifted since expand or no longer fits the file.
    pub fn verify(&self, file_lines: &[String]) -> (ok: bool)
        ensures
            ok == hunk_matches(self@, views(file_lines@)),
    {
        if self.start == 0 || self.len > file_lines.len() || self.start - 1 > file_lines.len()
            - self.len {
            return false;
        }
        let lo = self.start - 1;
        let region_lines = &file_lines[lo..lo + self.len];
        assert(views(region_lines@) =~= region(views(file_lines@), self.start, self.len));
        hash_lines(region_lines) == self.hash
    }
}

/// A hunk built from a region of a file matches that file for as long as
/// the region is unchanged, whatever becomes of its body.
pub proof fn law_fresh_hunk_matches(
    path: Seq<char>,
    start: usize,
    len: usize,
    file: Seq<Seq<char>>,
    body: Seq<Seq<char>>,
)
    requires
        fits(start, len, file.len()),
    ensures
        hunk_matches(HunkView { body, ..region_hunk(path, start, region(file, start, len)) }, file),
{
    assert(region(file, start, len).len() == len);
}

} // verus!
