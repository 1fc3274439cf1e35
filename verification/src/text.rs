//! Character-level building blocks: whitespace trimming, searching,
//! unsigned number parsing and rendering, and joining lines.

use vstd::prelude::*;
use vstd::std_specs::iter::IteratorSpec;

verus! {

broadcast use vstd::string::group_string_axioms;

// ---------------------------------------------------------------------------
// Whitespace and trimming
// ---------------------------------------------------------------------------

/// Unicode `White_Space`, the set that `char::is_whitespace` documents.
pub open spec fn is_ws(c: char) -> bool {
    let v = c as u32;
    ||| 0x09 <= v <= 0x0D
    ||| v == 0x20
    ||| v == 0x85
    ||| v == 0xA0
    ||| v == 0x1680
    ||| 0x2000 <= v <= 0x200A
    ||| v == 0x2028
    ||| v == 0x2029
    ||| v == 0x202F
    ||| v == 0x205F
    ||| v == 0x3000
}

/// `s` without its leading whitespace.
pub open spec fn trim_start(s: Seq<char>) -> Seq<char>
    decreases s.len(),
{
    if s.len() > 0 && is_ws(s[0]) {
        trim_start(s.drop_first())
    } else {
        s
    }
}

/// `s` without its trailing whitespace.
pub open spec fn trim_end(s: Seq<char>) -> Seq<char>
    decreases s.len(),
{
    if s.len() > 0 && is_ws(s.last()) {
        trim_end(s.drop_last())
    } else {
        s
    }
}

/// `s` without leading and trailing whitespace (`str::trim`).
pub open spec fn trim(s: Seq<char>) -> Seq<char> {
    trim_end(trim_start(s))
}

proof fn lemma_trim_start_all_ws(s: Seq<char>)
    requires
        forall|j: int| 0 <= j < trim_start(s).len() ==> is_ws(#[trigger] trim_start(s)[j]),
    ensures
        forall|i: int| 0 <= i < s.len() ==> is_ws(#[trigger] s[i]),
    decreases s.len(),
{
    if s.len() > 0 && is_ws(s[0]) {
        assert(trim_start(s) == trim_start(s.drop_first()));
        lemma_trim_start_all_ws(s.drop_first());
        assert forall|i: int| 0 <= i < s.len() implies is_ws(#[trigger] s[i]) by {
            if i > 0 {
                assert(s[i] == s.drop_first()[i - 1]);
            }
        }
    } else {
        assert(trim_start(s) == s);
    }
}

proof fn lemma_trim_end_empty(s: Seq<char>)
    requires
        trim_end(s).len() == 0,
    ensures
        forall|i: int| 0 <= i < s.len() ==> is_ws(#[trigger] s[i]),
    decreases s.len(),
{
    if s.len() > 0 && is_ws(s.last()) {
        lemma_trim_end_empty(s.drop_last());
        assert forall|i: int| 0 <= i < s.len() implies is_ws(#[trigger] s[i]) by {
            if i < s.len() - 1 {
                assert(s[i] == s.drop_last()[i]);
            }
        }
    }
}

/// A sequence that trims to nothing is all whitespace.
pub proof fn lemma_trim_empty(s: Seq<char>)
    requires
        trim(s).len() == 0,
    ensures
        forall|i: int| 0 <= i < s.len() ==> is_ws(#[trigger] s[i]),
{
    lemma_trim_end_empty(trim_start(s));
    lemma_trim_start_all_ws(s);
}

pub fn is_whitespace(c: char) -> (b: bool)
    ensures
        b == is_ws(c),
{
    let v = c as u32;
    (0x09 <= v && v <= 0x0D) || v == 0x20 || v == 0x85 || v == 0xA0 || v == 0x1680 || (0x2000
        <= v && v <= 0x200A) || v == 0x2028 || v == 0x2029 || v == 0x202F || v == 0x205F || v
        == 0x3000
}

/// The bounds `(a, b)` of `s` with surrounding whitespace removed.
pub fn trim_bounds(s: &[char]) -> (r: (usize, usize))
    ensures
        r.0 <= r.1 <= s@.len(),
        s@.subrange(r.0 as int, r.1 as int) == trim(s@),
{
    let n = s.len();
    let mut a: usize = 0;
    assert(s@.subrange(0, n as int) == s@);
    while a < n && is_whitespace(s[a])
        invariant
            a <= n == s@.len(),
            trim_start(s@) == trim_start(s@.subrange(a as int, n as int)),
        decreases n - a,
    {
        assert(s@.subrange(a as int, n as int).drop_first() == s@.subrange(a + 1, n as int));
        a = a + 1;
    }
    assert(trim_start(s@) == s@.subrange(a as int, n as int));
    let mut b: usize = n;
    while b > a && is_whitespace(s[b - 1])
        invariant
            a <= b <= n == s@.len(),
            trim(s@) == trim_end(s@.subrange(a as int, b as int)),
        decreases b,
    {
        assert(s@.subrange(a as int, b as int).drop_last() == s@.subrange(a as int, b - 1));
        b = b - 1;
    }
    (a, b)
}

// ---------------------------------------------------------------------------
// Searching
// ---------------------------------------------------------------------------

/// Index of the first `c` in `s`, or `s.len()` when there is none.
pub open spec fn find_char(s: Seq<char>, c: char) -> int
    decreases s.len(),
{
    if s.len() == 0 {
        0
    } else {
        let k = find_char(s.drop_last(), c);
        if k < s.len() - 1 {
            k
        } else if s.last() == c {
            s.len() - 1
        } else {
            s.len() as int
        }
    }
}

/// Index of the last `c` in `s`, or `-1` when there is none.
pub open spec fn rfind_char(s: Seq<char>, c: char) -> int
    decreases s.len(),
{
    if s.len() == 0 {
        -1
    } else if s.last() == c {
        s.len() - 1
    } else {
        rfind_char(s.drop_last(), c)
    }
}

pub proof fn lemma_find_char(s: Seq<char>, c: char)
    ensures
        0 <= find_char(s, c) <= s.len(),
        forall|j: int| 0 <= j < find_char(s, c) ==> s[j] != c,
        find_char(s, c) < s.len() ==> s[find_char(s, c)] == c,
    decreases s.len(),
{
    if s.len() > 0 {
        lemma_find_char(s.drop_last(), c);
        assert forall|j: int| 0 <= j < s.len() - 1 implies s[j] == s.drop_last()[j] by {}
    }
}

pub proof fn lemma_rfind_char(s: Seq<char>, c: char)
    ensures
        -1 <= rfind_char(s, c) < s.len(),
        forall|j: int| rfind_char(s, c) < j < s.len() ==> s[j] != c,
        rfind_char(s, c) >= 0 ==> s[rfind_char(s, c)] == c,
    decreases s.len(),
{
    if s.len() > 0 && s.last() != c {
        lemma_rfind_char(s.drop_last(), c);
        assert forall|j: int| rfind_char(s, c) < j < s.len() - 1 implies s[j] != c by {
            assert(s[j] == s.drop_last()[j]);
        }
    }
}

/// A character that `s` does not hold is found nowhere in it.
pub proof fn lemma_find_absent(s: Seq<char>, c: char)
    requires
        !s.contains(c),
    ensures
        find_char(s, c) == s.len(),
        rfind_char(s, c) == -1,
{
    lemma_find_char(s, c);
    lemma_rfind_char(s, c);
    if find_char(s, c) < s.len() {
        assert(s[find_char(s, c)] == c);
    }
    if rfind_char(s, c) >= 0 {
        assert(s[rfind_char(s, c)] == c);
    }
}

/// The first `c` of `a + seq![c] + b`, where `a` holds none, is at `a.len()`.
pub proof fn lemma_find_after_prefix(a: Seq<char>, c: char, b: Seq<char>)
    requires
        !a.contains(c),
    ensures
        find_char(a + seq![c] + b, c) == a.len(),
{
    let s = a + seq![c] + b;
    lemma_find_char(s, c);
    let k = find_char(s, c);
    if k < a.len() {
        assert(s[k] == a[k]);
    }
    assert(s[a.len() as int] == c);
}

/// The last `c` of `a + seq![c] + b`, where `b` holds none, is at `a.len()`.
pub proof fn lemma_rfind_before_suffix(a: Seq<char>, c: char, b: Seq<char>)
    requires
        !b.contains(c),
    ensures
        rfind_char(a + seq![c] + b, c) == a.len(),
{
    let s = a + seq![c] + b;
    lemma_rfind_char(s, c);
    let k = rfind_char(s, c);
    if k > a.len() {
        assert(s[k] == b[k - a.len() - 1]);
    }
    assert(s[a.len() as int] == c);
}

pub fn index_of(s: &[char], c: char) -> (r: usize)
    ensures
        r == find_char(s@, c),
{
    let n = s.len();
    let mut i: usize = 0;
    while i < n
        invariant
            i <= n == s@.len(),
            find_char(s@.take(i as int), c) == i,
        decreases n - i,
    {
        assert(s@.take(i + 1).drop_last() == s@.take(i as int));
        if s[i] == c {
            proof {
                lemma_find_prefix(s@, c, i + 1);
            }
            return i;
        }
        i = i + 1;
    }
    assert(s@.take(n as int) == s@);
    n
}

/// Once the first `c` lies within a prefix, the prefix decides it.
proof fn lemma_find_prefix(s: Seq<char>, c: char, k: int)
    requires
        0 <= k <= s.len(),
        find_char(s.take(k), c) < k,
    ensures
        find_char(s, c) == find_char(s.take(k), c),
    decreases s.len() - k,
{
    if k < s.len() {
        assert(s.take(k + 1).drop_last() == s.take(k));
        lemma_find_prefix(s, c, k + 1);
    } else {
        assert(s.take(k) == s);
    }
}

pub fn last_index_of(s: &[char], c: char) -> (r: Option<usize>)
    ensures
        match r {
            Some(i) => i == rfind_char(s@, c),
            None => rfind_char(s@, c) == -1,
        },
{
    let mut i: usize = s.len();
    assert(s@.take(i as int) == s@);
    while i > 0
        invariant
            i <= s@.len(),
            rfind_char(s@, c) == rfind_char(s@.take(i as int), c),
        decreases i,
    {
        assert(s@.take(i as int).drop_last() == s@.take(i - 1));
        if s[i - 1] == c {
            return Some(i - 1);
        }
        i = i - 1;
    }
    None
}

/// The characters `s[lo..hi]`.
pub fn sub_chars(s: &[char], lo: usize, hi: usize) -> (res: Vec<char>)
    requires
        lo <= hi <= s@.len(),
    ensures
        res@ == s@.subrange(lo as int, hi as int),
{
    let mut res: Vec<char> = Vec::new();
    let mut i = lo;
    while i < hi
        invariant
            lo <= i <= hi <= s@.len(),
            res@ == s@.subrange(lo as int, i as int),
        decreases hi - i,
    {
        res.push(s[i]);
        i = i + 1;
    }
    res
}

/// Whether `s` begins with `prefix`.
pub open spec fn has_prefix(s: Seq<char>, prefix: Seq<char>) -> bool {
    prefix.len() <= s.len() && s.take(prefix.len() as int) == prefix
}

/// Whether `s` ends with `suffix`.
pub open spec fn has_suffix(s: Seq<char>, suffix: Seq<char>) -> bool {
    suffix.len() <= s.len() && s.skip(s.len() - suffix.len()) == suffix
}

pub fn starts_with(s: &[char], prefix: &[char]) -> (b: bool)
    ensures
        b == has_prefix(s@, prefix@),
{
    if prefix.len() > s.len() {
        return false;
    }
    let mut i: usize = 0;
    while i < prefix.len()
        invariant
            prefix@.len() <= s@.len(),
            i <= prefix@.len(),
            forall|j: int| 0 <= j < i ==> s@[j] == prefix@[j],
        decreases prefix@.len() - i,
    {
        if s[i] != prefix[i] {
            assert(s@.take(prefix@.len() as int)[i as int] != prefix@[i as int]);
            return false;
        }
        i = i + 1;
    }
    assert(s@.take(prefix@.len() as int) =~= prefix@);
    true
}

// ---------------------------------------------------------------------------
// Strings and characters
// ---------------------------------------------------------------------------

/// The characters of `s`, in order.
pub fn chars_of(s: &str) -> (res: Vec<char>)
    ensures
        res@ == s@,
{
    let mut res: Vec<char> = Vec::new();
    for c in it: s.chars()
        invariant
            it.seq() == s@,
            res@ == it.seq().take(it.index()),
    {
        res.push(c);
    }
    res
}

/// Appends one character to a string (`String::push`).
#[verifier::external_body]
pub(crate) fn push_char(s: &mut String, c: char)
    ensures
        final(s)@ == old(s)@.push(c),
{
    s.push(c)
}

/// Appends characters to a string.
pub fn push_chars(out: &mut String, cs: &[char])
    ensures
        final(out)@ == old(out)@ + cs@,
{
    let ghost start = out@;
    for i in 0..cs.len()
        invariant
            out@ == start + cs@.take(i as int),
    {
        push_char(out, cs[i]);
        assert(cs@.take(i + 1) == cs@.take(i as int).push(cs@[i as int]));
    }
    assert(cs@.take(cs@.len() as int) == cs@);
}

/// A string made of the given characters.
pub fn string_of(cs: &[char]) -> (res: String)
    ensures
        res@ == cs@,
{
    let mut res = String::new();
    push_chars(&mut res, cs);
    res
}

// ---------------------------------------------------------------------------
// Unsigned numbers
// ---------------------------------------------------------------------------

/// The value of `c` as a digit in `radix` (10 or 16), or -1.
pub open spec fn digit_of(c: char, radix: nat) -> int {
    let v = c as u32;
    if '0' as u32 <= v <= '9' as u32 {
        v - '0' as u32
    } else if radix == 16 && 'a' as u32 <= v <= 'f' as u32 {
        v - 'a' as u32 + 10
    } else if radix == 16 && 'A' as u32 <= v <= 'F' as u32 {
        v - 'A' as u32 + 10
    } else {
        -1
    }
}

pub open spec fn all_digits(s: Seq<char>, radix: nat) -> bool {
    forall|i: int| 0 <= i < s.len() ==> digit_of(#[trigger] s[i], radix) >= 0
}

/// The value of the digits `s`, most significant first.
pub open spec fn digits_value(s: Seq<char>, radix: nat) -> nat
    decreases s.len(),
{
    if s.len() == 0 {
        0
    } else {
        (digits_value(s.drop_last(), radix) * radix + digit_of(s.last(), radix)) as nat
    }
}

/// What `from_str_radix` reads from `s` before any bound: an optional `+`,
/// then one or more digits.
pub open spec fn parse_unsigned(s: Seq<char>, radix: nat) -> Option<nat> {
    let body = if s.len() > 0 && s[0] == '+' {
        s.drop_first()
    } else {
        s
    };
    if body.len() > 0 && all_digits(body, radix) {
        Some(digits_value(body, radix))
    } else {
        None
    }
}

/// `str::parse::<usize>`: the value, when it is well formed and fits.
pub open spec fn parse_usize_spec(s: Seq<char>) -> Option<usize> {
    match parse_unsigned(s, 10) {
        Some(v) => if v <= usize::MAX {
            Some(v as usize)
        } else {
            None
        },
        None => None,
    }
}

/// `u32::from_str_radix(s, 16)`: the value, when it is well formed and fits.
pub open spec fn parse_hex_u32_spec(s: Seq<char>) -> Option<u32> {
    match parse_unsigned(s, 16) {
        Some(v) => if v <= u32::MAX {
            Some(v as u32)
        } else {
            None
        },
        None => None,
    }
}

fn digit(c: char, radix: u32) -> (d: Option<u32>)
    requires
        radix == 10 || radix == 16,
    ensures
        match d {
            Some(v) => v == digit_of(c, radix as nat) && v < radix,
            None => digit_of(c, radix as nat) < 0,
        },
{
    let v = c as u32;
    if 48 <= v && v <= 57 {
        Some(v - 48)
    } else if radix == 16 && 97 <= v && v <= 102 {
        Some(v - 97 + 10)
    } else if radix == 16 && 65 <= v && v <= 70 {
        Some(v - 65 + 10)
    } else {
        None
    }
}

proof fn lemma_digits_value_grows(s: Seq<char>, k: int, radix: nat)
    requires
        0 <= k <= s.len(),
        radix >= 2,
        all_digits(s, radix),
    ensures
        digits_value(s.take(k), radix) <= digits_value(s, radix),
    decreases s.len() - k,
{
    if k < s.len() {
        lemma_digits_value_grows(s, k + 1, radix);
        assert(s.take(k + 1).drop_last() == s.take(k));
        assert(digit_of(s.take(k + 1).last(), radix) >= 0);
        assert(digits_value(s.take(k), radix) * radix >= digits_value(s.take(k), radix))
            by (nonlinear_arith)
            requires
                radix >= 2,
        ;
    } else {
        assert(s.take(k) == s);
    }
}

/// Reads an unsigned number in `radix` from `s`, as `from_str_radix` does,
/// when its value is at most `max`.
fn parse_bounded(s: &[char], radix: u32, max: u64) -> (r: Option<u64>)
    requires
        radix == 10 || radix == 16,
        max >= 16,
    ensures
        match r {
            Some(v) => parse_unsigned(s@, radix as nat) == Some(v as nat) && v <= max,
            None => match parse_unsigned(s@, radix as nat) {
                Some(v) => v > max,
                None => true,
            },
        },
{
    let n = s.len();
    let start: usize = if n > 0 && s[0] == '+' {
        1
    } else {
        0
    };
    let ghost body = if s@.len() > 0 && s@[0] == '+' {
        s@.drop_first()
    } else {
        s@
    };
    assert(body == s@.subrange(start as int, n as int));
    if start >= n {
        return None;
    }
    let mut value: u64 = 0;
    let mut i: usize = start;
    while i < n
        invariant
            start <= i <= n == s@.len(),
            start < n,
            body == s@.subrange(start as int, n as int),
            body == (if s@.len() > 0 && s@[0] == '+' {
                s@.drop_first()
            } else {
                s@
            }),
            radix == 10 || radix == 16,
            max >= 16,
            value <= max,
            all_digits(body.take(i - start), radix as nat),
            value == digits_value(body.take(i - start), radix as nat),
        decreases n - i,
    {
        let d = match digit(s[i], radix) {
            Some(d) => d,
            None => {
                assert(body[i - start] == s@[i as int]);
                assert(digit_of(body[i - start], radix as nat) < 0);
                assert(!all_digits(body, radix as nat));
                return None;
            },
        };
        let ghost k: int = i - start;
        assert(body.take(k + 1).drop_last() == body.take(k));
        assert(body.take(k + 1).last() == s@[i as int]);
        assert(all_digits(body.take(k + 1), radix as nat)) by {
            assert forall|j: int| 0 <= j < k + 1 implies digit_of(
                #[trigger] body.take(k + 1)[j],
                radix as nat,
            ) >= 0 by {
                if j < k {
                    assert(body.take(k + 1)[j] == body.take(k)[j]);
                }
            }
        }
        if value > (max - d as u64) / radix as u64 {
            proof {
                assert(value * radix + d > max) by (nonlinear_arith)
                    requires
                        value > (max - d) / (radix as int),
                        radix > 0,
                        d <= max || d > max,
                ;
                if all_digits(body, radix as nat) {
                    lemma_digits_value_grows(body, k + 1, radix as nat);
                }
            }
            return None;
        }
        proof {
            assert(value * radix + d <= max) by (nonlinear_arith)
                requires
                    value <= (max - d) / (radix as int),
                    d <= max,
                    radix > 0,
            ;
        }
        value = value * radix as u64 + d as u64;
        i = i + 1;
    }
    assert(body.take(n - start) == body);
    Some(value)
}

/// `str::parse::<usize>`.
pub fn parse_usize(s: &[char]) -> (r: Option<usize>)
    ensures
        r == parse_usize_spec(s@),
{
    match parse_bounded(s, 10, usize::MAX as u64) {
        Some(v) => Some(v as usize),
        None => None,
    }
}

/// `u32::from_str_radix(s, 16)`.
pub fn parse_hex_u32(s: &[char]) -> (r: Option<u32>)
    ensures
        r == parse_hex_u32_spec(s@),
{
    match parse_bounded(s, 16, u32::MAX as u64) {
        Some(v) => Some(v as u32),
        None => None,
    }
}

/// The digit character for `d` (lower-case letters above 9).
pub open spec fn digit_char(d: nat) -> char {
    if d < 10 {
        (d + '0' as u32) as char
    } else {
        (d - 10 + 'a' as u32) as char
    }
}

/// The digits of `n` in `radix`, without leading zeros (`"0"` for zero):
/// what `{}` writes for `radix` 10 and `{:x}` for `radix` 16.
pub open spec fn radix_chars(n: nat, radix: nat) -> Seq<char>
    decreases n,
{
    if radix < 2 || n < radix {
        seq![digit_char(n)]
    } else {
        proof {
            assert(n / radix < n) by (nonlinear_arith)
                requires
                    radix >= 2,
                    n >= radix,
            ;
        }
        radix_chars(n / radix, radix).push(digit_char(n % radix))
    }
}

pub open spec fn decimal(n: nat) -> Seq<char> {
    radix_chars(n, 10)
}

pub open spec fn hex(n: nat) -> Seq<char> {
    radix_chars(n, 16)
}

fn digit_to_char(d: u32) -> (c: char)
    requires
        d < 16,
    ensures
        c == digit_char(d as nat),
{
    if d < 10 {
        char_from_code(d + 48)
    } else {
        char_from_code(d - 10 + 97)
    }
}

/// The ASCII character with code `v`.
fn char_from_code(v: u32) -> (c: char)
    requires
        v < 128,
    ensures
        c == v as char,
{
    let b: u8 = v as u8;
    b as char
}

/// Appends the digits of `n` in `radix` (10 or 16) to `out`.
pub fn push_radix(out: &mut String, n: u64, radix: u64)
    requires
        radix == 10 || radix == 16,
    ensures
        final(out)@ == old(out)@ + radix_chars(n as nat, radix as nat),
    decreases n,
{
    if n < radix {
        push_char(out, digit_to_char(n as u32));
    } else {
        push_radix(out, n / radix, radix);
        push_char(out, digit_to_char((n % radix) as u32));
    }
}

/// Characters that digits never include.
pub proof fn lemma_radix_chars_digits(n: nat, radix: nat)
    requires
        radix == 10 || radix == 16,
    ensures
        radix_chars(n, radix).len() > 0,
        all_digits(radix_chars(n, radix), radix),
        parse_unsigned(radix_chars(n, radix), radix) == Some(n),
        !radix_chars(n, radix).contains(' '),
        !radix_chars(n, radix).contains(','),
        !radix_chars(n, radix).contains('\n'),
        !radix_chars(n, radix).contains('+'),
        !radix_chars(n, radix).contains(':'),
    decreases n,
{
    let s = radix_chars(n, radix);
    assert(digit_of('+', radix) < 0);
    if n < radix {
        assert(digit_of(s[0], radix) == n);
        assert(s.drop_last().len() == 0);
        assert(digits_value(s.drop_last(), radix) == 0);
        assert(0 * radix == 0) by (nonlinear_arith);
        assert(digits_value(s, radix) == n);
        assert forall|c: char| s.contains(c) implies digit_of(c, radix) >= 0 by {
            let i = choose|i: int| 0 <= i < s.len() && s[i] == c;
            assert(digit_of(s[i], radix) >= 0);
        }
        assert(digit_of(' ', radix) < 0);
        assert(digit_of(',', radix) < 0);
        assert(digit_of('\n', radix) < 0);
        assert(digit_of(':', radix) < 0);
    } else {
        lemma_radix_chars_digits(n / radix, radix);
        let p = radix_chars(n / radix, radix);
        assert(s.drop_last() == p);
        let d = n % radix;
        assert(digit_of(digit_char(d), radix) == d);
        assert forall|i: int| 0 <= i < s.len() implies digit_of(#[trigger] s[i], radix) >= 0 by {
            if i < p.len() {
                assert(s[i] == p[i]);
            }
        }
        assert(digits_value(s, radix) == digits_value(p, radix) * radix + d);
        assert((n / radix) * radix + n % radix == n) by (nonlinear_arith)
            requires
                radix > 0,
        ;
        assert forall|c: char| s.contains(c) implies digit_of(c, radix) >= 0 by {
            let i = choose|i: int| 0 <= i < s.len() && s[i] == c;
            assert(digit_of(s[i], radix) >= 0);
        }
        assert(digit_of(' ', radix) < 0);
        assert(digit_of(',', radix) < 0);
        assert(digit_of('\n', radix) < 0);
        assert(digit_of('+', radix) < 0);
        assert(digit_of(':', radix) < 0);
    }
    assert(digit_of(s[0], radix) >= 0);
    assert(s[0] != '+');
    assert(parse_unsigned(s, radix) == Some(digits_value(s, radix)));
}

// ---------------------------------------------------------------------------
// Lines
// ---------------------------------------------------------------------------

/// The lines joined with `'\n'` between them (`[String]::join("\n")`).
pub open spec fn join_lines(lines: Seq<Seq<char>>) -> Seq<char>
    decreases lines.len(),
{
    if lines.len() == 0 {
        Seq::empty()
    } else if lines.len() == 1 {
        lines[0]
    } else {
        join_lines(lines.drop_last()) + seq!['\n'] + lines.last()
    }
}

/// The view of each string of `v`.
pub open spec fn views(v: Seq<String>) -> Seq<Seq<char>> {
    v.map_values(|s: String| s@)
}

/// The strings joined with `'\n'` between them.
pub fn join_strings(lines: &[String]) -> (res: String)
    ensures
        res@ == join_lines(views(lines@)),
{
    let mut res = String::new();
    let n = lines.len();
    let mut i: usize = 0;
    while i < n
        invariant
            i <= n == lines@.len(),
            res@ == join_lines(views(lines@.take(i as int))),
        decreases n - i,
    {
        let ghost prev = views(lines@.take(i as int));
        assert(views(lines@.take(i + 1)).drop_last() == prev);
        assert(views(lines@.take(i + 1)).last() == lines@[i as int]@);
        if i > 0 {
            push_char(&mut res, '\n');
        }
        res.append(lines[i].as_str());
        i = i + 1;
    }
    assert(lines@.take(n as int) == lines@);
    res
}

/// Lines none of which holds a `'\n'`.
pub open spec fn single_lines(lines: Seq<Seq<char>>) -> bool {
    forall|i: int| 0 <= i < lines.len() ==> !(#[trigger] lines[i]).contains('\n')
}

/// In the join of two or more single lines, the last `'\n'` is the one
/// before the last line.
proof fn lemma_join_last_newline(lines: Seq<Seq<char>>)
    requires
        lines.len() >= 2,
        single_lines(lines),
    ensures
        join_lines(lines) == join_lines(lines.drop_last()) + seq!['\n'] + lines.last(),
        rfind_char(join_lines(lines), '\n') == join_lines(lines.drop_last()).len(),
{
    assert(!lines[lines.len() - 1].contains('\n'));
    lemma_rfind_before_suffix(join_lines(lines.drop_last()), '\n', lines.last());
}

/// Single lines are told apart by their join: two lists of lines that hold
/// no `'\n'` join alike only when they are equal, or when one is empty and
/// the other is one empty line.
pub proof fn lemma_join_lines_injective(a: Seq<Seq<char>>, b: Seq<Seq<char>>)
    requires
        single_lines(a),
        single_lines(b),
        join_lines(a) == join_lines(b),
    ensures
        a == b || (a.len() == 0 && b == seq![Seq::<char>::empty()]) || (b.len() == 0 && a
            == seq![Seq::<char>::empty()]),
    decreases a.len() + b.len(),
{
    let j = join_lines(a);
    if a.len() >= 2 {
        lemma_join_last_newline(a);
    }
    if b.len() >= 2 {
        lemma_join_last_newline(b);
    }
    if a.len() == 1 {
        assert(!a[0].contains('\n'));
        lemma_find_absent(a[0], '\n');
    }
    if b.len() == 1 {
        assert(!b[0].contains('\n'));
        lemma_find_absent(b[0], '\n');
    }
    if a.len() == 0 || b.len() == 0 {
        if a.len() == 1 {
            assert(a =~= seq![Seq::<char>::empty()]);
        }
        if b.len() == 1 {
            assert(b =~= seq![Seq::<char>::empty()]);
        }
    } else if a.len() == 1 && b.len() == 1 {
        assert(a =~= b);
    } else if a.len() >= 2 && b.len() >= 2 {
        let x = join_lines(a.drop_last());
        let y = join_lines(b.drop_last());
        assert(x =~= j.subrange(0, x.len() as int));
        assert(y =~= j.subrange(0, y.len() as int));
        assert(a.last() =~= j.skip(x.len() as int + 1));
        assert(b.last() =~= j.skip(y.len() as int + 1));
        assert forall|i: int| 0 <= i < a.drop_last().len() implies !(
        #[trigger] a.drop_last()[i]).contains('\n') by {
            assert(a.drop_last()[i] == a[i]);
        }
        assert forall|i: int| 0 <= i < b.drop_last().len() implies !(
        #[trigger] b.drop_last()[i]).contains('\n') by {
            assert(b.drop_last()[i] == b[i]);
        }
        lemma_join_lines_injective(a.drop_last(), b.drop_last());
        assert(a =~= a.drop_last().push(a.last()));
        assert(b =~= b.drop_last().push(b.last()));
    }
}

/// The lines, each followed by `'\n'` (what writing them out gives).
pub open spec fn terminated_lines(lines: Seq<Seq<char>>) -> Seq<char>
    decreases lines.len(),
{
    if lines.len() == 0 {
        Seq::empty()
    } else {
        terminated_lines(lines.drop_last()) + lines.last() + seq!['\n']
    }
}

/// The strings, each followed by `'\n'`.
pub fn terminated_strings(lines: &[String]) -> (res: String)
    ensures
        res@ == terminated_lines(views(lines@)),
{
    let mut res = String::new();
    let n = lines.len();
    let mut i: usize = 0;
    while i < n
        invariant
            i <= n == lines@.len(),
            res@ == terminated_lines(views(lines@.take(i as int))),
        decreases n - i,
    {
        let ghost prev = views(lines@.take(i as int));
        assert(views(lines@.take(i + 1)).drop_last() =~= prev);
        assert(views(lines@.take(i + 1)).last() == lines@[i as int]@);
        res.append(lines[i].as_str());
        push_char(&mut res, '\n');
        i = i + 1;
    }
    assert(lines@.take(n as int) == lines@);
    res
}

} // verus!
