//! Byte ranges of a file: reading a `Range` header and choosing the span
//! of the file that a response carries.
use crate::number::{parse_u64, parsed_u64};
use crate::text::{split_chars, split_on};
use vstd::prelude::*;

verus! {

/// The characters that `char::is_whitespace` accepts: those of Unicode's
/// White_Space property.
pub open spec fn is_space(c: char) -> bool {
    ('\u{9}' <= c <= '\u{d}') || c == ' ' || c == '\u{85}' || c == '\u{a0}' || c == '\u{1680}'
        || ('\u{2000}' <= c <= '\u{200a}') || c == '\u{2028}' || c == '\u{2029}' || c == '\u{202f}'
        || c == '\u{205f}' || c == '\u{3000}'
}

fn space(c: char) -> (r: bool)
    ensures
        r == is_space(c),
{
    ('\u{9}' <= c && c <= '\u{d}') || c == ' ' || c == '\u{85}' || c == '\u{a0}' || c == '\u{1680}'
        || ('\u{2000}' <= c && c <= '\u{200a}') || c == '\u{2028}' || c == '\u{2029}' || c
        == '\u{202f}' || c == '\u{205f}' || c == '\u{3000}'
}

/// `s` without white space at either end, as `str::trim` gives it.
pub open spec fn trimmed(s: Seq<char>, a: int, b: int) -> bool {
    0 <= a <= b <= s.len()
        && (forall|i: int| 0 <= i < a ==> is_space(#[trigger] s[i]))
        && (forall|i: int| b <= i < s.len() ==> is_space(#[trigger] s[i]))
        && (a < b ==> !is_space(s[a]) && !is_space(s[b - 1]))
}

pub open spec fn trim_of(s: Seq<char>) -> Seq<char> {
    let (a, b) = choose|a: int, b: int| trimmed(s, a, b);
    s.subrange(a, b)
}

proof fn lemma_trimmed_unique(s: Seq<char>, a: int, b: int, c: int, d: int)
    requires
        trimmed(s, a, b),
        trimmed(s, c, d),
    ensures
        a < b ==> (a == c && b == d),
        a == b ==> c == d,
{
    if a < b {
        if c < a {
            assert(is_space(s[c]));
        }
        if a < c {
            assert(is_space(s[a]));
        }
        if d < b {
            assert(is_space(s[b - 1]));
        }
        if b < d {
            assert(is_space(s[d - 1]));
        }
    } else if c < d {
        if c < a {
            assert(is_space(s[c]));
        } else {
            assert(is_space(s[c]));
        }
    }
}

pub(crate) fn trim(v: &Vec<char>) -> (r: Vec<char>)
    ensures
        r@ == trim_of(v@),
{
    let mut a: usize = 0;
    while a < v.len() && space(v[a])
        invariant
            a <= v.len(),
            forall|i: int| 0 <= i < a ==> is_space(#[trigger] v@[i]),
        decreases v.len() - a,
    {
        a = a + 1;
    }
    let mut b: usize = v.len();
    while b > a && space(v[b - 1])
        invariant
            a <= b <= v.len(),
            forall|i: int| b <= i < v.len() ==> is_space(#[trigger] v@[i]),
        decreases b,
    {
        b = b - 1;
    }
    assert(trimmed(v@, a as int, b as int));
    let ghost (c, d) = choose|c: int, d: int| trimmed(v@, c, d);
    proof {
        lemma_trimmed_unique(v@, a as int, b as int, c, d);
    }
    let mut out: Vec<char> = Vec::new();
    let mut i: usize = a;
    while i < b
        invariant
            a <= i <= b <= v.len(),
            out@ == v@.subrange(a as int, i as int),
        decreases b - i,
    {
        out.push(v[i]);
        i = i + 1;
        assert(out@ =~= v@.subrange(a as int, i as int));
    }
    assert(a == b ==> out@ =~= v@.subrange(c, d));
    out
}

/// The bounds that a `Range` header asks for: a start, and an end unless
/// it is open. A value without `=` or without `-` after it asks for none;
/// a bound that does not read as a number counts as zero.
pub open spec fn range_request(value: Seq<char>) -> Option<(u64, Option<u64>)> {
    let parts = split_on(value, '=');
    if value.len() == 0 || parts.len() < 2 {
        None
    } else {
        let bounds = split_on(trim_of(parts[1]), '-');
        if bounds.len() < 2 {
            None
        } else {
            let start = match parsed_u64(bounds[0]) {
                Some(n) => n,
                None => 0,
            };
            if bounds[1].len() == 0 {
                Some((start, None))
            } else {
                Some(
                    (
                        start,
                        Some(
                            match parsed_u64(bounds[1]) {
                                Some(n) => n,
                                None => 0,
                            },
                        ),
                    ),
                )
            }
        }
    }
}

/// Reads the value of a `Range` header such as `bytes=100-` or
/// `bytes=0-99`.
pub fn parse_range(value: &str) -> (r: Option<(u64, Option<u64>)>)
    ensures
        r == range_request(value@),
{
    let v = crate::text::chars_of(value);
    let parts = split_chars(&v, '=');
    if v.len() == 0 || parts.len() < 2 {
        return None;
    }
    let bounds = split_chars(&trim(&parts[1]), '-');
    if bounds.len() < 2 {
        return None;
    }
    let start = match parse_u64(&bounds[0]) {
        Some(n) => n,
        None => 0,
    };
    if bounds[1].len() == 0 {
        Some((start, None))
    } else {
        let end = match parse_u64(&bounds[1]) {
            Some(n) => n,
            None => 0,
        };
        Some((start, Some(end)))
    }
}

/// The span of a file that a response carries, and how it is labelled.
#[derive(Clone, Copy, PartialEq, Eq, Debug)]
pub struct FileSpan {
    /// The first byte sent.
    pub offset: u64,
    /// How many bytes are sent.
    pub length: u64,
    /// 200 for the whole file from its start, else 206.
    pub status: i32,
    /// The first and last byte for `Content-Range`, when a range was asked.
    pub range: Option<(u64, u64)>,
}

/// The span for a file of `size` bytes and the bounds asked for. Bounds past
/// the end are cut to the last byte, and the start never passes the end.
/// An empty file, or no bounds, gives the whole file with status 200.
pub open spec fn span_of(req: Option<(u64, Option<u64>)>, size: u64) -> FileSpan {
    match req {
        Some((s, None)) if size > 0 => {
            let last = (size - 1) as u64;
            let st = if s > last { last } else { s };
            FileSpan {
                offset: st,
                length: (size - st) as u64,
                status: if st == 0 { 200 } else { 206 },
                range: Some((st, last)),
            }
        },
        Some((s, Some(e))) if size > 0 => {
            let last = (size - 1) as u64;
            let en = if e < last { e } else { last };
            let st = if s > en { en } else { s };
            FileSpan {
                offset: st,
                length: (en - st + 1) as u64,
                status: 206,
                range: Some((st, en)),
            }
        },
        _ => FileSpan { offset: 0, length: size, status: 200, range: None },
    }
}

/// Chooses the span of a file of `size` bytes to send for the bounds asked.
pub fn plan_span(req: Option<(u64, Option<u64>)>, size: u64) -> (r: FileSpan)
    ensures
        r == span_of(req, size),
{
    match req {
        Some((s, None)) if size > 0 => {
            let last = size - 1;
            let st = if s > last { last } else { s };
            FileSpan {
                offset: st,
                length: size - st,
                status: if st == 0 { 200 } else { 206 },
                range: Some((st, last)),
            }
        },
        Some((s, Some(e))) if size > 0 => {
            let last = size - 1;
            let en = if e < last { e } else { last };
            let st = if s > en { en } else { s };
            FileSpan { offset: st, length: en - st + 1, status: 206, range: Some((st, en)) }
        },
        _ => FileSpan { offset: 0, length: size, status: 200, range: None },
    }
}

/// A span always lies inside the file.
pub proof fn lemma_span_inside(req: Option<(u64, Option<u64>)>, size: u64)
    ensures
        span_of(req, size).offset + span_of(req, size).length <= size,
        size > 0 ==> span_of(req, size).length > 0,
{
}

/// `bytes=0-` on a file of `size` bytes: status 200, `Content-Range` over
/// the whole file, and all `size` bytes sent.
pub proof fn lemma_whole_file_range(size: u64)
    requires
        size > 0,
    ensures
        span_of(Some((0, None)), size) == (FileSpan {
            offset: 0,
            length: size,
            status: 200,
            range: Some((0, (size - 1) as u64)),
        }),
{
}

/// `bytes=K-` with `0 < K < size`: status 206, `Content-Range` from `K` to
/// the last byte, and `size - K` bytes sent from `K`.
pub proof fn lemma_suffix_range(size: u64, k: u64)
    requires
        0 < k < size,
    ensures
        span_of(Some((k, None)), size) == (FileSpan {
            offset: k,
            length: (size - k) as u64,
            status: 206,
            range: Some((k, (size - 1) as u64)),
        }),
{
}

} // verus!
