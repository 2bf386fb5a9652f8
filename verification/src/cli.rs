//! Text handling of the command-line tools: JSON string escaping, page
//! selections such as "1,3,5-10", truncation for display, and region names.
use std::collections::HashSet;

use vstd::prelude::*;

use vstd::string::StringSliceAdditionalSpecFns;
use vstd::utf8::{decode_utf8, is_char_boundary};

use crate::types::RegionType;

verus! {

/// `String::push`: appends one character.
#[verifier::external_body]
fn push_char(s: &mut String, c: char)
    ensures
        final(s)@ == old(s)@.push(c),
{
    s.push(c);
}

/// A lowercase hexadecimal digit.
pub open spec fn hex_digit_spec(n: nat) -> char {
    if n < 10 {
        ((n + 48) as u32) as char
    } else {
        ((n + 87) as u32) as char
    }
}

/// The JSON escape of one character: backslash, quote, newline, carriage
/// return, tab, backspace and form feed get their short escapes, other
/// characters below U+0020 become `\u00XX` (lowercase hex), all else stays.
pub open spec fn json_escape_char(c: char) -> Seq<char> {
    if c == '\\' {
        seq!['\\', '\\']
    } else if c == '"' {
        seq!['\\', '"']
    } else if c == '\n' {
        seq!['\\', 'n']
    } else if c == '\r' {
        seq!['\\', 'r']
    } else if c == '\t' {
        seq!['\\', 't']
    } else if c == '\x08' {
        seq!['\\', 'b']
    } else if c == '\x0C' {
        seq!['\\', 'f']
    } else if (c as u32) < 32 {
        seq!['\\', 'u', '0', '0', hex_digit_spec((c as u32 / 16) as nat), hex_digit_spec((c as u32 % 16) as nat)]
    } else {
        seq![c]
    }
}

/// The JSON escape of a string, character by character.
pub open spec fn json_escaped(s: Seq<char>) -> Seq<char>
    decreases s.len(),
{
    if s.len() == 0 {
        Seq::empty()
    } else {
        json_escaped(s.drop_last()) + json_escape_char(s.last())
    }
}

fn hex_digit(n: u32) -> (c: char)
    requires
        n < 16,
    ensures
        c == hex_digit_spec(n as nat),
{
    if n < 10 {
        ((n + 48) as u8) as char
    } else {
        ((n + 87) as u8) as char
    }
}

/// Escape a string for embedding in a JSON string value.
///
/// Handles all characters that the JSON spec requires to be escaped:
/// backslash, double-quote, and control characters U+0000..U+001F.
pub fn json_escape(s: &str) -> (out: String)
    ensures
        out@ == json_escaped(s@),
{
    let mut out = String::new();
    for ch in it: s.chars()
        invariant
            it.seq() == s@,
            out@ == json_escaped(s@.take(it.index() as int)),
    {
        assert(s@.take(it.index() + 1).drop_last() =~= s@.take(it.index() as int));
        let ghost before = out@;
        if ch == '\\' {
            push_char(&mut out, '\\');
            push_char(&mut out, '\\');
        } else if ch == '"' {
            push_char(&mut out, '\\');
            push_char(&mut out, '"');
        } else if ch == '\n' {
            push_char(&mut out, '\\');
            push_char(&mut out, 'n');
        } else if ch == '\r' {
            push_char(&mut out, '\\');
            push_char(&mut out, 'r');
        } else if ch == '\t' {
            push_char(&mut out, '\\');
            push_char(&mut out, 't');
        } else if ch == '\x08' {
            push_char(&mut out, '\\');
            push_char(&mut out, 'b');
        } else if ch == '\x0C' {
            push_char(&mut out, '\\');
            push_char(&mut out, 'f');
        } else if (ch as u32) < 32 {
            let code = ch as u32;
            push_char(&mut out, '\\');
            push_char(&mut out, 'u');
            push_char(&mut out, '0');
            push_char(&mut out, '0');
            push_char(&mut out, hex_digit(code / 16));
            push_char(&mut out, hex_digit(code % 16));
        } else {
            push_char(&mut out, ch);
        }
        assert(out@ =~= before + json_escape_char(ch));
    }
    assert(s@.take(s@.len() as int) =~= s@);
    out
}

proof fn lemma_json_escape_char_clean(c: char)
    ensures
        forall|k: int| 0 <= k < json_escape_char(c).len() ==> (#[trigger] json_escape_char(c)[k] as u32) >= 32,
        forall|k: int|
            0 <= k < json_escape_char(c).len() && #[trigger] json_escape_char(c)[k] == '"' ==> k > 0
                && json_escape_char(c)[k - 1] == '\\',
        json_escape_char(c).len() > 0 && json_escape_char(c)[0] == '"' ==> false,
{
}

/// The JSON escape of a string holds no raw control character (below
/// U+0020), and every double quote in it is preceded by a backslash, so it
/// can stand between quotes in a JSON document.
pub proof fn lemma_json_escape_is_clean(s: Seq<char>)
    ensures
        forall|k: int| 0 <= k < json_escaped(s).len() ==> (#[trigger] json_escaped(s)[k] as u32) >= 32,
        forall|k: int|
            0 <= k < json_escaped(s).len() && #[trigger] json_escaped(s)[k] == '"' ==> k > 0 && json_escaped(s)[k - 1]
                == '\\',
    decreases s.len(),
{
    if s.len() > 0 {
        lemma_json_escape_is_clean(s.drop_last());
        lemma_json_escape_char_clean(s.last());
        let a = json_escaped(s.drop_last());
        let b = json_escape_char(s.last());
        assert forall|k: int| 0 <= k < (a + b).len() implies (#[trigger] (a + b)[k] as u32) >= 32 by {
            if k >= a.len() {
                assert((a + b)[k] == b[k - a.len()]);
            }
        }
        assert forall|k: int| 0 <= k < (a + b).len() && #[trigger] (a + b)[k] == '"' implies k > 0 && (a + b)[k - 1]
            == '\\' by {
            if k >= a.len() {
                assert((a + b)[k] == b[k - a.len()]);
                if k > a.len() {
                    assert((a + b)[k - 1] == b[k - 1 - a.len()]);
                }
            }
        }
    }
}

/// Unicode white space, as `char::is_whitespace` has it.
pub open spec fn is_space(c: char) -> bool {
    let u = c as u32;
    ||| 9 <= u <= 13
    ||| u == 32
    ||| u == 0x85
    ||| u == 0xA0
    ||| u == 0x1680
    ||| 0x2000 <= u <= 0x200A
    ||| u == 0x2028
    ||| u == 0x2029
    ||| u == 0x202F
    ||| u == 0x205F
    ||| u == 0x3000
}

pub open spec fn trim_start(s: Seq<char>) -> Seq<char>
    decreases s.len(),
{
    if s.len() > 0 && is_space(s[0]) {
        trim_start(s.drop_first())
    } else {
        s
    }
}

pub open spec fn trim_end(s: Seq<char>) -> Seq<char>
    decreases s.len(),
{
    if s.len() > 0 && is_space(s.last()) {
        trim_end(s.drop_last())
    } else {
        s
    }
}

/// `s` without leading and trailing white space.
pub open spec fn trim(s: Seq<char>) -> Seq<char> {
    trim_end(trim_start(s))
}

/// The pieces of `s` between separators: one more piece than separators,
/// empty pieces included.
pub open spec fn split_on(s: Seq<char>, sep: char) -> Seq<Seq<char>>
    decreases s.len(),
{
    if s.len() == 0 {
        seq![Seq::empty()]
    } else {
        let r = split_on(s.drop_last(), sep);
        if s.last() == sep {
            r.push(Seq::empty())
        } else {
            r.update(r.len() - 1, r.last().push(s.last()))
        }
    }
}

pub open spec fn is_ascii_digit(c: char) -> bool {
    48 <= c as u32 <= 57
}

/// The value of a string of decimal digits.
pub open spec fn digits_value(s: Seq<char>) -> nat
    decreases s.len(),
{
    if s.len() == 0 {
        0
    } else {
        digits_value(s.drop_last()) * 10 + (s.last() as u32 - 48) as nat
    }
}

/// The digits after an optional leading `+`.
pub open spec fn unsigned_part(s: Seq<char>) -> Seq<char> {
    if s.len() > 0 && s[0] == '+' {
        s.drop_first()
    } else {
        s
    }
}

pub open spec fn all_digits(d: Seq<char>) -> bool {
    forall|i: int| 0 <= i < d.len() ==> is_ascii_digit(#[trigger] d[i])
}

/// How `str::parse::<u32>` reads a string: an optional `+`, then one or more
/// ASCII digits whose value fits in a `u32`.
pub open spec fn parse_u32_spec(s: Seq<char>) -> Option<u32> {
    let d = unsigned_part(s);
    if d.len() > 0 && all_digits(d) && digits_value(d) <= u32::MAX {
        Some(digits_value(d) as u32)
    } else {
        None
    }
}

pub open spec fn digit_char(n: nat) -> char {
    ((n % 10 + 48) as u32) as char
}

/// Decimal notation of a number, as `Display` writes it.
pub open spec fn decimal(n: nat) -> Seq<char>
    decreases n,
{
    if n < 10 {
        seq![digit_char(n)]
    } else {
        decimal(n / 10).push(digit_char(n % 10))
    }
}

/// Position `i` holds the first `c` of `p`.
pub open spec fn is_first_at(p: Seq<char>, c: char, i: int) -> bool {
    0 <= i < p.len() && p[i] == c && forall|j: int| 0 <= j < i ==> p[j] != c
}

/// The pages one comma-separated part selects: after trimming, either a
/// range `a-b` split at its first `-`, both ends trimmed and parsed, both at
/// least 1 and `a <= b`, selecting `a..=b`; or a single page number of at
/// least 1. Errors name the offending text.
pub open spec fn part_pages(part: Seq<char>) -> Result<Set<u32>, Seq<char>> {
    let p = trim(part);
    if exists|i: int| is_first_at(p, '-', i) {
        let i = choose|i: int| is_first_at(p, '-', i);
        let a = trim(p.take(i));
        let b = trim(p.skip(i + 1));
        match parse_u32_spec(a) {
            None => Err("invalid page number: "@ + a),
            Some(start) => match parse_u32_spec(b) {
                None => Err("invalid page number: "@ + b),
                Some(end) => if start == 0 || end == 0 {
                    Err("page numbers are 1-indexed"@)
                } else if start > end {
                    Err("invalid range: "@ + decimal(start as nat).push('-') + decimal(end as nat))
                } else {
                    Ok(Set::new(|q: u32| start <= q && q <= end))
                },
            },
        }
    } else {
        match parse_u32_spec(p) {
            None => Err("invalid page number: "@ + p),
            Some(v) => if v == 0 {
                Err("page numbers are 1-indexed"@)
            } else {
                Ok(set![v])
            },
        }
    }
}

/// The pages of a list of parts: the union of each part's pages, or the
/// error of the first part that fails.
pub open spec fn parts_pages(parts: Seq<Seq<char>>) -> Result<Set<u32>, Seq<char>>
    decreases parts.len(),
{
    if parts.len() == 0 {
        Ok(Set::empty())
    } else {
        match parts_pages(parts.drop_last()) {
            Err(e) => Err(e),
            Ok(a) => match part_pages(parts.last()) {
                Err(e) => Err(e),
                Ok(b) => Ok(a.union(b)),
            },
        }
    }
}

/// The pages a specification like "1,3,5-10,20" selects (see [`part_pages`]).
pub open spec fn page_selection(spec: Seq<char>) -> Result<Set<u32>, Seq<char>> {
    parts_pages(split_on(spec, ','))
}

proof fn lemma_split_on_nonempty(s: Seq<char>, sep: char)
    ensures
        split_on(s, sep).len() > 0,
    decreases s.len(),
{
    if s.len() > 0 {
        lemma_split_on_nonempty(s.drop_last(), sep);
    }
}

proof fn lemma_split_extends(s: Seq<char>, i: int, j: int, sep: char)
    requires
        0 <= i < j <= s.len(),
        s[i] == sep,
    ensures
        split_on(s.take(j), sep).len() > split_on(s.take(i), sep).len(),
        forall|k: int| 0 <= k < split_on(s.take(i), sep).len() ==> split_on(s.take(j), sep)[k] == split_on(s.take(i), sep)[k],
    decreases j - i,
{
    lemma_split_on_nonempty(s.take(i), sep);
    assert(s.take(j).drop_last() =~= s.take(j - 1));
    if j > i + 1 {
        lemma_split_extends(s, i, j - 1, sep);
    }
}

proof fn lemma_split_prefix(s: Seq<char>, i: int, sep: char)
    requires
        0 <= i < s.len(),
        s[i] == sep,
    ensures
        split_on(s, sep).len() > split_on(s.take(i), sep).len(),
        split_on(s, sep).subrange(0, split_on(s.take(i), sep).len() as int) == split_on(s.take(i), sep),
{
    lemma_split_extends(s, i, s.len() as int, sep);
    assert(s.take(s.len() as int) =~= s);
    assert(split_on(s, sep).subrange(0, split_on(s.take(i), sep).len() as int) =~= split_on(s.take(i), sep));
}

proof fn lemma_parts_pages_err(parts: Seq<Seq<char>>, more: Seq<Seq<char>>, e: Seq<char>)
    requires
        parts_pages(parts) == Err::<Set<u32>, Seq<char>>(e),
    ensures
        parts_pages(parts + more) == Err::<Set<u32>, Seq<char>>(e),
    decreases more.len(),
{
    if more.len() == 0 {
        assert(parts + more =~= parts);
    } else {
        lemma_parts_pages_err(parts, more.drop_last(), e);
        assert((parts + more).drop_last() =~= parts + more.drop_last());
    }
}

proof fn lemma_digits_value_prefix(d: Seq<char>, k: int)
    requires
        0 <= k <= d.len(),
    ensures
        digits_value(d.take(k)) <= digits_value(d),
    decreases d.len() - k,
{
    if k < d.len() {
        lemma_digits_value_prefix(d, k + 1);
        assert(d.take(k + 1).drop_last() =~= d.take(k));
    } else {
        assert(d.take(k) =~= d);
    }
}

/// The characters of a string.
fn chars_of(s: &str) -> (v: Vec<char>)
    ensures
        v@ == s@,
{
    let mut v: Vec<char> = Vec::new();
    for c in it: s.chars()
        invariant
            it.seq() == s@,
            v@ == s@.take(it.index() as int),
    {
        v.push(c);
        assert(v@ =~= s@.take(it.index() + 1));
    }
    assert(s@.take(s@.len() as int) =~= s@);
    v
}

fn is_space_char(c: char) -> (r: bool)
    ensures
        r == is_space(c),
{
    let u = c as u32;
    (9 <= u && u <= 13) || u == 32 || u == 0x85 || u == 0xA0 || u == 0x1680 || (0x2000 <= u && u <= 0x200A)
        || u == 0x2028 || u == 0x2029 || u == 0x202F || u == 0x205F || u == 0x3000
}

/// The range `[lo, hi)` of `cs[a..b]` without surrounding white space.
fn trim_range(cs: &Vec<char>, a: usize, b: usize) -> (r: (usize, usize))
    requires
        a <= b <= cs@.len(),
    ensures
        a <= r.0 <= r.1 <= b,
        cs@.subrange(r.0 as int, r.1 as int) == trim(cs@.subrange(a as int, b as int)),
{
    let mut lo = a;
    while lo < b && is_space_char(cs[lo])
        invariant
            a <= lo <= b <= cs@.len(),
            trim_start(cs@.subrange(a as int, b as int)) == trim_start(cs@.subrange(lo as int, b as int)),
        decreases b - lo,
    {
        assert(cs@.subrange(lo as int, b as int).drop_first() =~= cs@.subrange(lo + 1, b as int));
        lo = lo + 1;
    }
    if lo < b {
        assert(cs@.subrange(lo as int, b as int)[0] == cs@[lo as int]);
    }
    let mut hi = b;
    while hi > lo && is_space_char(cs[hi - 1])
        invariant
            a <= lo <= hi <= b <= cs@.len(),
            trim_start(cs@.subrange(a as int, b as int)) == cs@.subrange(lo as int, b as int),
            trim_end(cs@.subrange(lo as int, b as int)) == trim_end(cs@.subrange(lo as int, hi as int)),
        decreases hi - lo,
    {
        assert(cs@.subrange(lo as int, hi as int).drop_last() =~= cs@.subrange(lo as int, hi - 1));
        hi = hi - 1;
    }
    if hi > lo {
        assert(cs@.subrange(lo as int, hi as int).last() == cs@[hi - 1]);
    }
    (lo, hi)
}

/// Parse `cs[a..b]` as `str::parse::<u32>` would.
fn parse_u32_range(cs: &Vec<char>, a: usize, b: usize) -> (r: Option<u32>)
    requires
        a <= b <= cs@.len(),
    ensures
        r == parse_u32_spec(cs@.subrange(a as int, b as int)),
{
    let ghost s = cs@.subrange(a as int, b as int);
    let start = if a < b && cs[a] == '+' {
        a + 1
    } else {
        a
    };
    let ghost d = cs@.subrange(start as int, b as int);
    assert(d =~= unsigned_part(s));
    if start == b {
        return None;
    }
    let mut acc: u64 = 0;
    let mut i = start;
    while i < b
        invariant
            start <= i <= b <= cs@.len(),
            d == cs@.subrange(start as int, b as int),
            s == cs@.subrange(a as int, b as int),
            d == unsigned_part(s),
            d.len() > 0,
            forall|k: int| 0 <= k < i - start ==> is_ascii_digit(#[trigger] d[k]),
            acc == digits_value(d.take(i - start)),
            acc <= u32::MAX,
        decreases b - i,
    {
        let c = cs[i];
        assert(d[i - start] == c);
        if !(48 <= c as u32 && c as u32 <= 57) {
            assert(!is_ascii_digit(d[i - start]));
            assert(!all_digits(d));
            return None;
        }
        assert(d.take(i + 1 - start).drop_last() =~= d.take(i - start));
        assert(d.take(i + 1 - start).last() == c);
        let next = acc * 10 + (c as u32 - 48) as u64;
        if next > u32::MAX as u64 {
            proof {
                lemma_digits_value_prefix(d, i + 1 - start);
                assert(digits_value(d.take(i + 1 - start)) == acc * 10 + (c as u32 - 48));
            }
            return None;
        }
        acc = next;
        i = i + 1;
    }
    assert(d.take(b - start) =~= d);
    Some(acc as u32)
}

/// Append the decimal notation of `n`.
fn push_decimal(out: &mut String, n: u32)
    ensures
        final(out)@ == old(out)@ + decimal(n as nat),
    decreases n,
{
    if n >= 10 {
        push_decimal(out, n / 10);
    }
    push_char(out, ((n % 10 + 48) as u8) as char);
    assert(((n % 10 + 48) as u8) as char == digit_char(n as nat));
    assert(final(out)@ =~= old(out)@ + decimal(n as nat));
}

/// Append `cs[a..b]`.
fn push_range(out: &mut String, cs: &Vec<char>, a: usize, b: usize)
    requires
        a <= b <= cs@.len(),
    ensures
        final(out)@ == old(out)@ + cs@.subrange(a as int, b as int),
{
    let mut i = a;
    while i < b
        invariant
            a <= i <= b <= cs@.len(),
            out@ == old(out)@ + cs@.subrange(a as int, i as int),
        decreases b - i,
    {
        push_char(out, cs[i]);
        assert(out@ =~= old(out)@ + cs@.subrange(a as int, i + 1));
        i = i + 1;
    }
}

fn invalid_number(cs: &Vec<char>, a: usize, b: usize) -> (m: String)
    requires
        a <= b <= cs@.len(),
    ensures
        m@ == "invalid page number: "@ + cs@.subrange(a as int, b as int),
{
    let mut m = String::from_str("invalid page number: ");
    push_range(&mut m, cs, a, b);
    m
}

/// Add the pages of the part `cs[a..b]` to `pages`, or give its error.
fn add_part(cs: &Vec<char>, a: usize, b: usize, pages: &mut HashSet<u32>) -> (r: Result<(), String>)
    requires
        a <= b <= cs@.len(),
    ensures
        match part_pages(cs@.subrange(a as int, b as int)) {
            Ok(t) => r is Ok && final(pages)@ == old(pages)@.union(t),
            Err(e) => r matches Err(m) && m@ == e,
        },
{
    let (lo, hi) = trim_range(cs, a, b);
    let ghost p = cs@.subrange(lo as int, hi as int);
    let mut d = lo;
    while d < hi && cs[d] != '-'
        invariant
            lo <= d <= hi <= cs@.len(),
            p == cs@.subrange(lo as int, hi as int),
            forall|j: int| 0 <= j < d - lo ==> p[j] != '-',
        decreases hi - d,
    {
        d = d + 1;
    }
    if d < hi {
        let ghost i = (d - lo) as int;
        assert(is_first_at(p, '-', i));
        assert(forall|k: int| is_first_at(p, '-', k) ==> k == i);
        let (sa, sb) = trim_range(cs, lo, d);
        let (ea, eb) = trim_range(cs, d + 1, hi);
        assert(cs@.subrange(lo as int, d as int) =~= p.take(i));
        assert(cs@.subrange(d + 1, hi as int) =~= p.skip(i + 1));
        let start = match parse_u32_range(cs, sa, sb) {
            None => {
                return Err(invalid_number(cs, sa, sb));
            },
            Some(v) => v,
        };
        let end = match parse_u32_range(cs, ea, eb) {
            None => {
                return Err(invalid_number(cs, ea, eb));
            },
            Some(v) => v,
        };
        if start == 0 || end == 0 {
            return Err(String::from_str("page numbers are 1-indexed"));
        }
        if start > end {
            let mut m = String::from_str("invalid range: ");
            push_decimal(&mut m, start);
            push_char(&mut m, '-');
            push_decimal(&mut m, end);
            return Err(m);
        }
        let ghost base = pages@;
        let mut q: u64 = start as u64;
        while q <= end as u64
            invariant
                start <= q <= end as u64 + 1,
                end <= u32::MAX,
                pages@ == base.union(Set::new(|x: u32| start <= x && x < q)),
            decreases end as u64 + 1 - q,
        {
            pages.insert(q as u32);
            assert(pages@ =~= base.union(Set::new(|x: u32| start <= x && x < q + 1)));
            q = q + 1;
        }
        assert(pages@ =~= base.union(Set::new(|x: u32| start <= x && x <= end)));
        Ok(())
    } else {
        assert(!exists|k: int| is_first_at(p, '-', k));
        match parse_u32_range(cs, lo, hi) {
            None => Err(invalid_number(cs, lo, hi)),
            Some(v) => {
                if v == 0 {
                    return Err(String::from_str("page numbers are 1-indexed"));
                }
                let ghost base = pages@;
                pages.insert(v);
                assert(pages@ =~= base.union(set![v]));
                Ok(())
            },
        }
    }
}

/// Parse a page specification like "1,3,5-10,20" into a set of page numbers.
pub fn parse_page_spec(spec: &str) -> (r: Result<HashSet<u32>, String>)
    ensures
        match (r, page_selection(spec@)) {
            (Ok(h), Ok(s)) => h@ == s,
            (Err(m), Err(e)) => m@ == e,
            _ => false,
        },
{
    let cs = chars_of(spec);
    let n = cs.len();
    let mut pages: HashSet<u32> = HashSet::new();
    let mut start: usize = 0;
    let ghost mut done: Seq<Seq<char>> = Seq::empty();
    let mut i: usize = 0;
    assert(cs@.take(0) =~= Seq::<char>::empty());
    assert(split_on(cs@.take(0), ',') =~= done.push(cs@.subrange(0, 0)));
    while i < n
        invariant
            n == cs@.len(),
            cs@ == spec@,
            start <= i <= n,
            split_on(cs@.take(i as int), ',') == done.push(cs@.subrange(start as int, i as int)),
            parts_pages(done) == Ok::<Set<u32>, Seq<char>>(pages@),
        decreases n - i,
    {
        assert(cs@.take(i + 1).drop_last() =~= cs@.take(i as int));
        assert(cs@.take(i + 1).last() == cs@[i as int]);
        proof {
            lemma_split_on_nonempty(cs@.take(i as int), ',');
        }
        if cs[i] == ',' {
            let ghost part = cs@.subrange(start as int, i as int);
            match add_part(&cs, start, i, &mut pages) {
                Err(m) => {
                    proof {
                        let all = split_on(spec@, ',');
                        assert(done.push(part).drop_last() =~= done);
                        assert(parts_pages(done.push(part)) == Err::<Set<u32>, Seq<char>>(m@));
                        lemma_split_prefix(cs@, i as int, ',');
                        let more = all.subrange(done.len() + 1 as int, all.len() as int);
                        assert(all =~= done.push(part) + more);
                        lemma_parts_pages_err(done.push(part), more, m@);
                    }
                    return Err(m);
                },
                Ok(()) => {},
            }
            proof {
                assert(done.push(part).drop_last() =~= done);
                done = done.push(part);
            }
            start = i + 1;
            assert(split_on(cs@.take(i + 1), ',') == split_on(cs@.take(i as int), ',').push(Seq::<char>::empty()));
            assert(cs@.subrange(start as int, i + 1) =~= Seq::<char>::empty());
            assert(split_on(cs@.take(i + 1), ',') =~= done.push(cs@.subrange(start as int, i + 1)));
        } else {
            assert(cs@.subrange(start as int, i as int).push(cs@[i as int]) =~= cs@.subrange(start as int, i + 1));
            assert(split_on(cs@.take(i + 1), ',') =~= done.push(cs@.subrange(start as int, i + 1)));
        }
        i = i + 1;
    }
    assert(cs@.take(n as int) =~= cs@);
    let ghost part = cs@.subrange(start as int, n as int);
    assert(done.push(part).drop_last() =~= done);
    match add_part(&cs, start, n, &mut pages) {
        Err(m) => Err(m),
        Ok(()) => Ok(pages),
    }
}

/// The value of a hexadecimal digit, either case.
pub open spec fn hex_value(c: char) -> Option<nat> {
    let u = c as u32;
    if 48 <= u <= 57 {
        Some((u - 48) as nat)
    } else if 97 <= u <= 102 {
        Some((u - 87) as nat)
    } else if 65 <= u <= 70 {
        Some((u - 55) as nat)
    } else {
        None
    }
}

/// The character a two-character escape `\e` stands for, per JSON.
pub open spec fn json_short_escape(e: char) -> Option<char> {
    if e == '"' {
        Some('"')
    } else if e == '\\' {
        Some('\\')
    } else if e == '/' {
        Some('/')
    } else if e == 'b' {
        Some('\x08')
    } else if e == 'f' {
        Some('\x0C')
    } else if e == 'n' {
        Some('\n')
    } else if e == 'r' {
        Some('\r')
    } else if e == 't' {
        Some('\t')
    } else {
        None
    }
}

/// Decoding the body of a JSON string literal: unescaped characters other
/// than `"`, `\` and controls stand for themselves; `\"`, `\\`, `\/`, `\b`,
/// `\f`, `\n`, `\r`, `\t` and `\uXXXX` (a code point outside the surrogate
/// range) stand for their character; anything else is not a valid body.
/// (Surrogate pairs written as two `\u` escapes are left outside.)
pub open spec fn json_decode(s: Seq<char>) -> Option<Seq<char>>
    decreases s.len(),
{
    if s.len() == 0 {
        Some(Seq::empty())
    } else if s[0] == '"' || (s[0] as u32) < 32 {
        None
    } else if s[0] != '\\' {
        match json_decode(s.drop_first()) {
            Some(t) => Some(seq![s[0]] + t),
            None => None,
        }
    } else if s.len() < 2 {
        None
    } else if json_short_escape(s[1]) is Some {
        match json_decode(s.skip(2)) {
            Some(t) => Some(seq![json_short_escape(s[1])->0] + t),
            None => None,
        }
    } else if s[1] == 'u' && s.len() >= 6 && hex_value(s[2]) is Some && hex_value(s[3]) is Some && hex_value(
        s[4],
    ) is Some && hex_value(s[5]) is Some {
        let v = hex_value(s[2])->0 * 4096 + hex_value(s[3])->0 * 256 + hex_value(s[4])->0 * 16 + hex_value(
            s[5],
        )->0;
        if 0xD800 <= v <= 0xDFFF {
            None
        } else {
            match json_decode(s.skip(6)) {
                Some(t) => Some(seq![(v as u32) as char] + t),
                None => None,
            }
        }
    } else {
        None
    }
}

proof fn lemma_escaped_front(s: Seq<char>)
    requires
        s.len() > 0,
    ensures
        json_escaped(s) == json_escape_char(s[0]) + json_escaped(s.drop_first()),
    decreases s.len(),
{
    if s.len() == 1 {
        assert(s.drop_last() =~= Seq::<char>::empty());
        assert(s.drop_first() =~= Seq::<char>::empty());
        assert(json_escaped(s.drop_first()) =~= Seq::<char>::empty());
        assert(json_escaped(s) =~= json_escape_char(s[0]));
    } else {
        lemma_escaped_front(s.drop_last());
        assert(s.drop_last().drop_first() =~= s.drop_first().drop_last());
        assert(s.drop_first().last() == s.last());
        assert(json_escaped(s) =~= json_escape_char(s[0]) + json_escaped(s.drop_first()));
    }
}

proof fn lemma_hex_digit_value(n: nat)
    requires
        n < 16,
    ensures
        hex_value(hex_digit_spec(n)) == Some(n),
{
    if n < 10 {
        assert(((n + 48) as u32) as char as u32 == n + 48);
    } else {
        assert(((n + 87) as u32) as char as u32 == n + 87);
    }
}

proof fn lemma_decode_step(c: char, r: Seq<char>)
    ensures
        json_decode(json_escape_char(c) + r) == match json_decode(r) {
            Some(t) => Some(seq![c] + t),
            None => None::<Seq<char>>,
        },
{
    let e = json_escape_char(c);
    let s = e + r;
    if e.len() == 2 {
        assert(s.skip(2) =~= r);
    } else if e.len() == 6 {
        assert(s.skip(6) =~= r);
        let u = c as u32;
        lemma_hex_digit_value((u / 16) as nat);
        lemma_hex_digit_value((u % 16) as nat);
        assert(hex_value('0') == Some(0nat));
        let v = 0nat * 4096 + 0nat * 256 + (u / 16) as nat * 16 + (u % 16) as nat;
        assert(v == u);
        vstd::utf8::char_u32_cast(c, u);
        assert((v as u32) as char == c);
    } else {
        assert(s.drop_first() =~= r);
    }
}

/// Escaping is undone by decoding: the JSON string literal `"` + escape(s)
/// + `"` reads back exactly as `s`.
pub proof fn lemma_json_escape_round_trip(s: Seq<char>)
    ensures
        json_decode(json_escaped(s)) == Some(s),
    decreases s.len(),
{
    if s.len() == 0 {
        assert(json_escaped(s) =~= Seq::<char>::empty());
    } else {
        lemma_escaped_front(s);
        lemma_json_escape_round_trip(s.drop_first());
        lemma_decode_step(s[0], json_escaped(s.drop_first()));
        assert(seq![s[0]] + s.drop_first() =~= s);
    }
}

proof fn lemma_split_concat(x: Seq<char>, y: Seq<char>, sep: char)
    ensures
        split_on(x.push(sep) + y, sep) == split_on(x, sep) + split_on(y, sep),
    decreases y.len(),
{
    lemma_split_on_nonempty(x, sep);
    if y.len() == 0 {
        assert(x.push(sep) + y =~= x.push(sep));
        assert(x.push(sep).drop_last() =~= x);
        assert(split_on(x, sep) + split_on(y, sep) =~= split_on(x, sep).push(Seq::empty()));
    } else {
        let z = x.push(sep) + y;
        lemma_split_concat(x, y.drop_last(), sep);
        lemma_split_on_nonempty(y.drop_last(), sep);
        assert(z.drop_last() =~= x.push(sep) + y.drop_last());
        assert(z.last() == y.last());
        let a = split_on(x, sep);
        let b = split_on(y.drop_last(), sep);
        if y.last() == sep {
            assert((a + b).push(Seq::empty()) =~= a + b.push(Seq::empty()));
        } else {
            assert((a + b).update((a + b).len() - 1, (a + b).last().push(y.last())) =~= a + b.update(
                b.len() - 1,
                b.last().push(y.last()),
            ));
        }
    }
}

proof fn lemma_parts_pages_concat(p: Seq<Seq<char>>, q: Seq<Seq<char>>, a: Set<u32>, b: Set<u32>)
    requires
        parts_pages(p) == Ok::<Set<u32>, Seq<char>>(a),
        parts_pages(q) == Ok::<Set<u32>, Seq<char>>(b),
    ensures
        parts_pages(p + q) == Ok::<Set<u32>, Seq<char>>(a.union(b)),
    decreases q.len(),
{
    if q.len() == 0 {
        assert(p + q =~= p);
        assert(b =~= Set::<u32>::empty());
        assert(a.union(b) =~= a);
    } else {
        let b0 = parts_pages(q.drop_last())->Ok_0;
        let t = part_pages(q.last())->Ok_0;
        lemma_parts_pages_concat(p, q.drop_last(), a, b0);
        assert((p + q).drop_last() =~= p + q.drop_last());
        assert((p + q).last() == q.last());
        assert(a.union(b0).union(t) =~= a.union(b));
    }
}

/// Joining two valid page specifications with a comma selects the union of
/// their pages, whichever comes first.
pub proof fn lemma_page_selection_join(a: Seq<char>, b: Seq<char>, pa: Set<u32>, pb: Set<u32>)
    requires
        page_selection(a) == Ok::<Set<u32>, Seq<char>>(pa),
        page_selection(b) == Ok::<Set<u32>, Seq<char>>(pb),
    ensures
        page_selection(a.push(',') + b) == Ok::<Set<u32>, Seq<char>>(pa.union(pb)),
        page_selection(b.push(',') + a) == Ok::<Set<u32>, Seq<char>>(pa.union(pb)),
{
    lemma_split_concat(a, b, ',');
    lemma_split_concat(b, a, ',');
    lemma_parts_pages_concat(split_on(a, ','), split_on(b, ','), pa, pb);
    lemma_parts_pages_concat(split_on(b, ','), split_on(a, ','), pb, pa);
    assert(pb.union(pa) =~= pa.union(pb));
}

proof fn lemma_parts_pages_no_zero(parts: Seq<Seq<char>>)
    ensures
        parts_pages(parts) matches Ok(set) ==> !set.contains(0),
    decreases parts.len(),
{
    if parts.len() > 0 {
        lemma_parts_pages_no_zero(parts.drop_last());
    }
}

/// Page numbers are 1-indexed: a selection that parses never contains 0.
pub proof fn lemma_page_selection_is_one_indexed(spec: Seq<char>)
    ensures
        page_selection(spec) matches Ok(set) ==> !set.contains(0),
{
    lemma_parts_pages_no_zero(split_on(spec, ','));
}

/// Text for display: all of `s` when it has at most `max_len` bytes, else its
/// first `max_len` bytes followed by "...".
pub open spec fn truncated(s: &str, max_len: usize) -> Seq<char> {
    if s.spec_bytes().len() <= max_len {
        s@
    } else {
        decode_utf8(s.spec_bytes().subrange(0, max_len as int)) + "..."@
    }
}

/// Shorten a string to at most `max_len` bytes for display, marking the cut
/// with "...". The cut must fall on a character boundary (a string's bytes
/// always fit in memory, hence in a `usize`).
pub fn truncate(s: &str, max_len: usize) -> (r: String)
    requires
        s.spec_bytes().len() <= usize::MAX,
        s.spec_bytes().len() <= max_len || is_char_boundary(s.spec_bytes(), max_len as int),
    ensures
        r@ == truncated(s, max_len),
{
    if s.len() <= max_len {
        String::from_str(s)
    } else {
        let (head, _) = s.split_at(max_len);
        proof {
            vstd::utf8::encode_utf8_decode_utf8(head@);
        }
        let mut r = String::from_str(head);
        r.append("...");
        r
    }
}

/// The name of a region type.
pub open spec fn region_type_name(rt: RegionType) -> Seq<char> {
    match rt {
        RegionType::Table => "table"@,
        RegionType::Formula => "formula"@,
        RegionType::Image => "image"@,
        RegionType::Paragraph => "paragraph"@,
        RegionType::Heading { .. } => "heading"@,
    }
}

/// The name of a region type, as the layout output prints it.
pub fn region_type_str(rt: &RegionType) -> (name: &'static str)
    ensures
        name@ == region_type_name(*rt),
{
    match rt {
        RegionType::Table => "table",
        RegionType::Formula => "formula",
        RegionType::Image => "image",
        RegionType::Paragraph => "paragraph",
        RegionType::Heading { .. } => "heading",
    }
}

} // verus!
