//! Text helpers: characters of strings, paths and percent-decoding.
use vstd::prelude::*;
use vstd::std_specs::iter::IteratorSpec;
use vstd::string::StringSliceAdditionalSpecFns;

verus! {

broadcast use vstd::string::axiom_spec_iter, vstd::string::next_postcondition;

/// Relies on `String::push`: the character is appended at the end.
#[verifier::external_body]
pub(crate) fn push_char(s: &mut String, c: char)
    ensures
        final(s)@ == old(s)@.push(c),
{
    s.push(c);
}

/// The characters of `s`, in order.
pub fn chars_of(s: &str) -> (r: Vec<char>)
    ensures
        r@ == s@,
{
    let mut out: Vec<char> = Vec::new();
    for c in it: s.chars()
        invariant
            out@ == it.history(),
    {
        out.push(c);
    }
    assert(out@ =~= s@);
    out
}

/// A string holding the characters of `v`.
pub fn string_of(v: &Vec<char>) -> (r: String)
    ensures
        r@ == v@,
{
    let mut s = String::new();
    let mut i: usize = 0;
    while i < v.len()
        invariant
            i <= v.len(),
            s@ == v@.take(i as int),
        decreases v.len() - i,
    {
        push_char(&mut s, v[i]);
        i = i + 1;
        assert(s@ =~= v@.take(i as int));
    }
    assert(v@.take(v.len() as int) =~= v@);
    s
}

/// Relies on `String::from_utf8`: it succeeds exactly on well-formed UTF-8,
/// and the string then decodes those bytes.
#[verifier::external_body]
pub(crate) fn utf8_string(bytes: Vec<u8>) -> (r: Option<String>)
    ensures
        r.is_some() == vstd::utf8::valid_utf8(bytes@),
        r matches Some(s) ==> s@ == vstd::utf8::decode_utf8(bytes@),
{
    String::from_utf8(bytes).ok()
}

/// The pieces of `s` between occurrences of `sep`; there is always at least
/// one, and a separator at either end yields an empty piece there.
pub open spec fn split_on(s: Seq<char>, sep: char) -> Seq<Seq<char>>
    decreases s.len(),
{
    if s.len() == 0 {
        seq![Seq::empty()]
    } else {
        let r = split_on(s.drop_last(), sep);
        if s.last() == sep {
            r.push(Seq::empty())
        } else {
            r.update(r.len() - 1, r.last().push(s.last()))
        }
    }
}

pub proof fn lemma_split_on_nonempty(s: Seq<char>, sep: char)
    ensures
        split_on(s, sep).len() >= 1,
    decreases s.len(),
{
    if s.len() > 0 {
        lemma_split_on_nonempty(s.drop_last(), sep);
    }
}

/// A path component that names a dot-file: it starts with `.` and is
/// neither `.` nor `..`.
pub open spec fn is_dot_component(c: Seq<char>) -> bool {
    c.len() > 0 && c[0] == '.' && c != seq!['.'] && c != seq!['.', '.']
}

/// Whether some `/`-separated component of `path` names a dot-file.
pub open spec fn path_is_hidden(path: Seq<char>) -> bool {
    exists|k: int| 0 <= k < split_on(path, '/').len() && is_dot_component(#[trigger] split_on(path, '/')[k])
}

fn component_is_dot(v: &Vec<char>, start: usize, end: usize) -> (r: bool)
    requires
        start <= end <= v.len(),
    ensures
        r == is_dot_component(v@.subrange(start as int, end as int)),
{
    let ghost c = v@.subrange(start as int, end as int);
    if start == end || v[start] != '.' {
        return false;
    }
    if end - start == 1 {
        assert(c =~= seq!['.']);
        return false;
    }
    if end - start == 2 && v[start + 1] == '.' {
        assert(c =~= seq!['.', '.']);
        return false;
    }
    assert(c.len() == 2 ==> c[1] != '.');
    true
}

/// Whether some `/`-separated component of `path` starts with a dot and is
/// neither `.` nor `..`.
pub fn is_hidden(path: &String) -> (r: bool)
    ensures
        r == path_is_hidden(path@),
{
    let v = chars_of(path.as_str());
    let ghost s = v@;
    let mut start: usize = 0;
    let mut i: usize = 0;
    let mut found = false;
    while i < v.len()
        invariant
            s == v@,
            start <= i <= v.len(),
            split_on(s.take(i as int), '/').len() >= 1,
            split_on(s.take(i as int), '/').last() == s.subrange(start as int, i as int),
            found == exists|k: int|
                0 <= k < split_on(s.take(i as int), '/').len() - 1
                    && is_dot_component(#[trigger] split_on(s.take(i as int), '/')[k]),
        decreases v.len() - i,
    {
        let ghost before = split_on(s.take(i as int), '/');
        assert(s.take(i + 1).drop_last() =~= s.take(i as int));
        if v[i] == '/' {
            let d = component_is_dot(&v, start, i);
            let ghost after = split_on(s.take(i + 1), '/');
            assert(after == before.push(Seq::empty()));
            assert(forall|k: int| 0 <= k < before.len() ==> after[k] == before[k]);
            assert(found || d <==> exists|k: int|
                0 <= k < after.len() - 1 && is_dot_component(#[trigger] after[k])) by {
                if d {
                    assert(is_dot_component(after[before.len() - 1]));
                }
                if found {
                    let k = choose|k: int| 0 <= k < before.len() - 1 && is_dot_component(#[trigger] before[k]);
                    assert(is_dot_component(after[k]));
                }
                if exists|k: int| 0 <= k < after.len() - 1 && is_dot_component(#[trigger] after[k]) {
                    let k = choose|k: int| 0 <= k < after.len() - 1 && is_dot_component(#[trigger] after[k]);
                    if k < before.len() - 1 {
                        assert(is_dot_component(before[k]));
                    }
                }
            }
            found = found || d;
            start = i + 1;
        } else {
            let ghost after = split_on(s.take(i + 1), '/');
            assert(s.subrange(start as int, i + 1) =~= s.subrange(start as int, i as int).push(v[i as int]));
            assert(forall|k: int| 0 <= k < after.len() - 1 ==> after[k] == before[k]);
        }
        i = i + 1;
        assert(s.subrange(i as int, i as int) =~= Seq::<char>::empty());
    }
    assert(s.take(i as int) =~= s);
    let last = component_is_dot(&v, start, i);
    let ghost parts = split_on(s, '/');
    assert(found || last <==> exists|k: int|
        0 <= k < parts.len() && is_dot_component(#[trigger] parts[k])) by {
        if last {
            assert(is_dot_component(parts[parts.len() - 1]));
        }
    }
    found || last
}

/// The position of the last occurrence of `c` in `s`.
pub open spec fn last_pos(s: Seq<char>, c: char, p: int) -> bool {
    0 <= p < s.len() && s[p] == c && forall|j: int| p < j < s.len() ==> s[j] != c
}

/// Strips the last path segment: `/a/b` gives `/a`.
pub fn strip_off_file(orig_path: &str) -> (r: String)
    ensures
        orig_path@ == seq!['/'] ==> r@ == orig_path@,
        orig_path@ != seq!['/'] ==> (
            if exists|p: int| last_pos(orig_path@, '/', p) {
                exists|p: int| last_pos(orig_path@, '/', p) && r@ == orig_path@.take(p)
            } else {
                r@.len() == 0
            }),
{
    let v = chars_of(orig_path);
    if v.len() == 1 && v[0] == '/' {
        assert(orig_path@ =~= seq!['/']);
        return string_of(&v);
    }
    assert(v@ != seq!['/']) by {
        if v@ == seq!['/'] {
            assert(v@.len() == 1 && v@[0] == '/');
        }
    }
    let mut i: usize = v.len();
    while i > 0
        invariant
            i <= v.len(),
            v@ == orig_path@,
            v@ != seq!['/'],
            forall|j: int| i <= j < v.len() ==> v@[j] != '/',
        decreases i,
    {
        if v[i - 1] == '/' {
            let mut out: Vec<char> = Vec::new();
            let mut k: usize = 0;
            while k < i - 1
                invariant
                    k <= i - 1,
                    0 < i <= v.len(),
                    v@ == orig_path@,
                    v@ != seq!['/'],
                    out@ == v@.take(k as int),
                decreases i - 1 - k,
            {
                out.push(v[k]);
                k = k + 1;
                assert(out@ =~= v@.take(k as int));
            }
            assert(last_pos(orig_path@, '/', i - 1));
            return string_of(&out);
        }
        i = i - 1;
    }
    assert(forall|p: int| !last_pos(orig_path@, '/', p));
    String::new()
}

/// The value of a base64 digit of the standard alphabet; any other byte,
/// padding included, counts as zero.
pub open spec fn base64_value(c: u8) -> u8 {
    if 65 <= c <= 90 {
        (c - 65) as u8
    } else if 97 <= c <= 122 {
        (c - 71) as u8
    } else if 48 <= c <= 57 {
        (c + 4) as u8
    } else if c == 43 {
        62
    } else if c == 47 {
        63
    } else {
        0
    }
}

fn decode_char(input: u8) -> (r: u8)
    ensures
        r == base64_value(input),
        r < 64,
{
    if 65 <= input && input <= 90 {
        input - 65
    } else if 97 <= input && input <= 122 {
        input - 71
    } else if 48 <= input && input <= 57 {
        input + 4
    } else if input == 43 {
        62
    } else if input == 47 {
        63
    } else {
        0
    }
}

/// The three bytes that four base64 digit values stand for.
pub open spec fn base64_group(a: u8, b: u8, c: u8, d: u8) -> Seq<u8> {
    seq![
        ((a << 2u8) | ((b & 0x30u8) >> 4u8)) as u8,
        (((b & 0x0Fu8) << 4u8) | ((c & 0x3Cu8) >> 2u8)) as u8,
        (((c & 0x03u8) << 6u8) | d) as u8,
    ]
}

/// The bytes that `s` stands for, read four digits at a time.
pub open spec fn base64_bytes(s: Seq<u8>) -> Seq<u8>
    decreases s.len(),
{
    if s.len() < 4 {
        Seq::empty()
    } else {
        let n = s.len() - 4;
        base64_bytes(s.take(n)) + base64_group(
            base64_value(s[n]),
            base64_value(s[n + 1]),
            base64_value(s[n + 2]),
            base64_value(s[n + 3]),
        )
    }
}

/// Decodes base64 text into a string; the result is empty when the bytes
/// are not UTF-8, and NUL characters are left out.
pub open spec fn base64_text(s: Seq<u8>) -> Seq<char> {
    let b = base64_bytes(s);
    if vstd::utf8::valid_utf8(b) {
        vstd::utf8::decode_utf8(b).filter(|c: char| c != '\0')
    } else {
        Seq::empty()
    }
}

/// Decodes standard base64 whose length is a multiple of four.
pub fn decode_base64(input: &[u8]) -> (r: String)
    requires
        input@.len() % 4 == 0,
    ensures
        r@ == base64_text(input@),
{
    let mut output: Vec<u8> = Vec::new();
    let mut i: usize = 0;
    while i < input.len()
        invariant
            i <= input@.len(),
            i % 4 == 0,
            input@.len() % 4 == 0,
            output@ == base64_bytes(input@.take(i as int)),
        decreases input@.len() - i,
    {
        let a = decode_char(input[i]);
        let b = decode_char(input[i + 1]);
        let c = decode_char(input[i + 2]);
        let d = decode_char(input[i + 3]);
        output.push((a << 2u8) | ((b & 0x30u8) >> 4u8));
        output.push(((b & 0x0Fu8) << 4u8) | ((c & 0x3Cu8) >> 2u8));
        output.push(((c & 0x03u8) << 6u8) | d);
        let ghost t = input@.take(i + 4);
        assert(t.take(i as int) =~= input@.take(i as int));
        assert(t[i as int] == input@[i as int]);
        assert(t[i + 1] == input@[i + 1]);
        assert(t[i + 2] == input@[i + 2]);
        assert(t[i + 3] == input@[i + 3]);
        i = i + 4;
        assert(output@ =~= base64_bytes(input@.take(i as int)));
    }
    assert(input@.take(i as int) =~= input@);
    match utf8_string(output) {
        Some(s) => without_nul(&s),
        None => String::new(),
    }
}

/// `s` with every NUL character left out.
fn without_nul(s: &String) -> (r: String)
    ensures
        r@ == s@.filter(|c: char| c != '\0'),
{
    let v = chars_of(s.as_str());
    let mut out = String::new();
    let mut i: usize = 0;
    while i < v.len()
        invariant
            i <= v.len(),
            v@ == s@,
            out@ == v@.take(i as int).filter(|c: char| c != '\0'),
        decreases v.len() - i,
    {
        assert(v@.take(i + 1).drop_last() =~= v@.take(i as int));
        proof {
            reveal(Seq::filter);
        }
        if v[i] != '\0' {
            push_char(&mut out, v[i]);
        }
        i = i + 1;
    }
    assert(v@.take(i as int) =~= v@);
    out
}

/// Appends the characters of `v` to `out`.
pub(crate) fn append_chars(out: &mut String, v: &Vec<char>)
    ensures
        final(out)@ == old(out)@ + v@,
{
    let mut i: usize = 0;
    while i < v.len()
        invariant
            i <= v.len(),
            out@ == old(out)@ + v@.take(i as int),
        decreases v.len() - i,
    {
        push_char(out, v[i]);
        i = i + 1;
        assert(out@ =~= old(out)@ + v@.take(i as int));
    }
    assert(v@.take(i as int) =~= v@);
}

pub open spec fn is_hex_digit(b: u8) -> bool {
    (48 <= b <= 57) || (65 <= b <= 70) || (97 <= b <= 102)
}

pub open spec fn hex_digit_value(b: u8) -> int {
    if 48 <= b <= 57 {
        b - 48
    } else if 65 <= b <= 70 {
        b - 55
    } else {
        b - 87
    }
}

/// Whether the two bytes after a `%` read as a hexadecimal byte the way
/// `u8::from_str_radix(_, 16)` reads them: two digits, or `+` and a digit.
pub open spec fn hex_pair_ok(h1: u8, h2: u8) -> bool {
    is_hex_digit(h2) && (is_hex_digit(h1) || h1 == 43)
}

pub open spec fn hex_pair_value(h1: u8, h2: u8) -> u8 {
    if h1 == 43 {
        hex_digit_value(h2) as u8
    } else {
        (16 * hex_digit_value(h1) + hex_digit_value(h2)) as u8
    }
}

/// Each byte as the character of the same number.
pub open spec fn latin1(b: Seq<u8>) -> Seq<char> {
    b.map_values(|x: u8| x as char)
}

/// Decoded bytes become text: as UTF-8 where they are well-formed, else
/// byte by byte.
pub open spec fn flushed(buf: Seq<u8>) -> Seq<char> {
    if vstd::utf8::valid_utf8(buf) {
        vstd::utf8::decode_utf8(buf)
    } else {
        latin1(buf)
    }
}

/// Percent-decoding of `b` after the escaped bytes `buf` that are still
/// waiting to be turned into text. A `%` that starts no escape stays as it
/// is, after the waiting bytes, and so do the bytes after it.
pub open spec fn url_decoded(b: Seq<u8>, buf: Seq<u8>) -> Seq<char>
    decreases b.len(),
{
    if b.len() == 0 {
        flushed(buf)
    } else if b[0] == 37 {
        if b.len() >= 3 {
            if hex_pair_ok(b[1], b[2]) {
                url_decoded(b.skip(3), buf.push(hex_pair_value(b[1], b[2])))
            } else {
                flushed(buf) + seq!['%', b[1] as char, b[2] as char] + url_decoded(b.skip(3), Seq::empty())
            }
        } else {
            flushed(buf) + seq!['%'] + latin1(b.skip(1))
        }
    } else {
        flushed(buf) + seq![b[0] as char] + url_decoded(b.skip(1), Seq::empty())
    }
}

fn hex_value(b: u8) -> (r: u8)
    requires
        is_hex_digit(b),
    ensures
        r as int == hex_digit_value(b),
        r < 16,
{
    if 48 <= b && b <= 57 {
        b - 48
    } else if 65 <= b && b <= 70 {
        b - 55
    } else {
        b - 87
    }
}

fn is_hex(b: u8) -> (r: bool)
    ensures
        r == is_hex_digit(b),
{
    (48 <= b && b <= 57) || (65 <= b && b <= 70) || (97 <= b && b <= 102)
}

/// Appends the text of the decoded bytes `buf` to `out`.
fn flush_into(out: &mut String, buf: &Vec<u8>)
    ensures
        final(out)@ == old(out)@ + flushed(buf@),
{
    match utf8_string(buf.clone()) {
        Some(s) => {
            let v = chars_of(s.as_str());
            append_chars(out, &v);
        },
        None => {
            let mut i: usize = 0;
            while i < buf.len()
                invariant
                    i <= buf.len(),
                    !vstd::utf8::valid_utf8(buf@),
                    out@ == old(out)@ + latin1(buf@.take(i as int)),
                decreases buf.len() - i,
            {
                push_char(out, buf[i] as char);
                i = i + 1;
                assert(latin1(buf@.take(i as int)) =~= latin1(buf@.take(i - 1)).push(buf@[i - 1] as char));
                assert(out@ =~= old(out)@ + latin1(buf@.take(i as int)));
            }
            assert(buf@.take(i as int) =~= buf@);
        },
    }
}

/// Percent-decodes `input`. Escaped bytes that form UTF-8 become the
/// characters they encode; other bytes stand for the character of the same
/// number.
pub fn url_decode(input: &str) -> (r: String)
    ensures
        r@ == url_decoded(input.spec_bytes(), Seq::empty()),
{
    let bytes = input.as_bytes();
    let ghost all = bytes@;
    let mut decoded = String::new();
    let mut buf: Vec<u8> = Vec::new();
    let mut i: usize = 0;
    assert(all.skip(0) =~= all);
    assert(decoded@ + url_decoded(all.skip(0), buf@) =~= url_decoded(all, Seq::empty()));
    while i < bytes.len()
        invariant
            all == bytes@,
            all == input.spec_bytes(),
            i <= bytes@.len(),
            decoded@ + url_decoded(all.skip(i as int), buf@) == url_decoded(all, Seq::empty()),
        decreases bytes@.len() - i,
    {
        let ghost rest = all.skip(i as int);
        let byte = bytes[i];
        if byte == 37 {
            if bytes.len() - i > 2 {
                let h1 = bytes[i + 1];
                let h2 = bytes[i + 2];
                assert(rest.skip(3) =~= all.skip(i + 3));
                if is_hex(h2) && (is_hex(h1) || h1 == 43) {
                    let v: u8 = if h1 == 43 {
                        hex_value(h2)
                    } else {
                        16 * hex_value(h1) + hex_value(h2)
                    };
                    buf.push(v);
                } else {
                    flush_into(&mut decoded, &buf);
                    buf.clear();
                    push_char(&mut decoded, '%');
                    push_char(&mut decoded, h1 as char);
                    push_char(&mut decoded, h2 as char);
                }
                i = i + 3;
            } else {
                flush_into(&mut decoded, &buf);
                buf.clear();
                push_char(&mut decoded, '%');
                let ghost base = decoded@;
                let mut k: usize = i + 1;
                while k < bytes.len()
                    invariant
                        i + 1 <= k <= bytes@.len(),
                        decoded@ == base + latin1(all.subrange(i + 1, k as int)),
                        all == bytes@,
                    decreases bytes@.len() - k,
                {
                    push_char(&mut decoded, bytes[k] as char);
                    k = k + 1;
                    assert(latin1(all.subrange(i + 1, k as int)) =~= latin1(all.subrange(i + 1, k - 1)).push(
                        all[k - 1] as char,
                    ));
                    assert(decoded@ =~= base + latin1(all.subrange(i + 1, k as int)));
                }
                assert(all.subrange(i + 1, k as int) =~= rest.skip(1));
                i = bytes.len();
                assert(all.skip(i as int).len() == 0);
                assert(url_decoded(all.skip(i as int), buf@) =~= Seq::<char>::empty());
            }
        } else {
            flush_into(&mut decoded, &buf);
            buf.clear();
            push_char(&mut decoded, byte as char);
            assert(rest.skip(1) =~= all.skip(i + 1));
            i = i + 1;
        }
    }
    let ghost d = decoded@;
    flush_into(&mut decoded, &buf);
    assert(all.skip(i as int).len() == 0);
    decoded
}

/// Relies on `substring::Substring::substring`: the characters from index
/// `start` up to index `end`, both cut down to the length of `s`, and none
/// when `end <= start`.
#[verifier::external_body]
fn substring_of<'a>(s: &'a str, start: usize, end: usize) -> (r: &'a str)
    ensures
        r@ == char_range(s@, start as int, end as int),
{
    substring::Substring::substring(s, start, end)
}

pub open spec fn char_range(s: Seq<char>, start: int, end: int) -> Seq<char> {
    if end <= start {
        Seq::empty()
    } else {
        let a = if start < s.len() { start } else { s.len() as int };
        let b = if end < s.len() { end } else { s.len() as int };
        s.subrange(a, b)
    }
}

/// The segments of a path after `.` and `..` in `segs` are applied, in
/// order, to `stack`; empty segments are skipped and `..` never pops past
/// the start.
pub open spec fn resolve(stack: Seq<Seq<char>>, segs: Seq<Seq<char>>) -> Seq<Seq<char>>
    decreases segs.len(),
{
    if segs.len() == 0 {
        stack
    } else {
        let s = resolve(stack, segs.drop_last());
        let w = segs.last();
        if w.len() == 0 || w == seq!['.'] {
            s
        } else if w == seq!['.', '.'] {
            if s.len() > 0 {
                s.drop_last()
            } else {
                s
            }
        } else {
            s.push(w)
        }
    }
}

/// The parts with `sep` between each two of them.
pub open spec fn join(parts: Seq<Seq<char>>, sep: char) -> Seq<char>
    decreases parts.len(),
{
    if parts.len() == 0 {
        Seq::empty()
    } else if parts.len() == 1 {
        parts[0]
    } else {
        join(parts.drop_last(), sep) + seq![sep] + parts.last()
    }
}

/// Each `//`, read from the left without overlap, becomes `/`.
pub open spec fn collapse_slashes(s: Seq<char>) -> Seq<char>
    decreases s.len(),
{
    if s.len() >= 2 && s[0] == '/' && s[1] == '/' {
        seq!['/'] + collapse_slashes(s.skip(2))
    } else if s.len() == 0 {
        s
    } else {
        seq![s[0]] + collapse_slashes(s.skip(1))
    }
}

/// The first position of `c` in `s`.
pub open spec fn first_pos(s: Seq<char>, c: char, p: int) -> bool {
    0 <= p < s.len() && s[p] == c && forall|j: int| 0 <= j < p ==> s[j] != c
}

/// A drive prefix such as `C:`: what precedes the first `:`, and the `:`.
pub open spec fn drive_prefix(cur: Seq<char>) -> Seq<char> {
    if exists|p: int| first_pos(cur, ':', p) {
        let p = choose|p: int| first_pos(cur, ':', p);
        cur.take(p + 1)
    } else {
        Seq::empty()
    }
}

/// The path that `req` names when read from the directory `cur`.
pub open spec fn relative_path_of(cur: Seq<char>, req: Seq<char>) -> Seq<char> {
    let prefix = drive_prefix(cur);
    let start = vstd::utf8::encode_utf8(prefix).len() as usize;
    let end = vstd::utf8::encode_utf8(cur).len() as usize;
    let rest = char_range(cur, start as int, end as int);
    let joined = join(resolve(split_on(rest, '/'), split_on(req, '/')), '/');
    let collapsed = collapse_slashes(joined);
    let rooted = if collapsed.len() > 0 && collapsed[0] == '/' {
        collapsed
    } else {
        seq!['/'] + collapsed
    };
    let slashed = if req.len() > 0 && req.last() == '/' && rooted.last() != '/' {
        rooted.push('/')
    } else {
        rooted
    };
    prefix + slashed
}

/// The character sequences held by `v`.
pub open spec fn views(v: Seq<Vec<char>>) -> Seq<Seq<char>> {
    v.map_values(|x: Vec<char>| x@)
}

/// The pieces of `v` between occurrences of `sep`.
pub fn split_chars(v: &Vec<char>, sep: char) -> (r: Vec<Vec<char>>)
    ensures
        views(r@) == split_on(v@, sep),
{
    let mut parts: Vec<Vec<char>> = Vec::new();
    let mut cur: Vec<char> = Vec::new();
    let mut i: usize = 0;
    assert(v@.take(0) =~= Seq::<char>::empty());
    assert(views(parts@).push(cur@) =~= split_on(v@.take(0), sep));
    while i < v.len()
        invariant
            i <= v.len(),
            views(parts@).push(cur@) == split_on(v@.take(i as int), sep),
        decreases v.len() - i,
    {
        assert(v@.take(i + 1).drop_last() =~= v@.take(i as int));
        let ghost before = views(parts@);
        if v[i] == sep {
            parts.push(cur);
            cur = Vec::new();
            assert(views(parts@) =~= before.push(split_on(v@.take(i as int), sep).last()));
        } else {
            cur.push(v[i]);
        }
        i = i + 1;
        assert(views(parts@).push(cur@) =~= split_on(v@.take(i as int), sep));
    }
    assert(v@.take(i as int) =~= v@);
    parts.push(cur);
    parts
}

fn is_single(w: &Vec<char>, c: char) -> (r: bool)
    ensures
        r == (w@ == seq![c]),
{
    if w.len() == 1 && w[0] == c {
        assert(w@ =~= seq![c]);
        true
    } else {
        false
    }
}

fn is_double_dot(w: &Vec<char>) -> (r: bool)
    ensures
        r == (w@ == seq!['.', '.']),
{
    if w.len() == 2 && w[0] == '.' && w[1] == '.' {
        assert(w@ =~= seq!['.', '.']);
        true
    } else {
        false
    }
}

fn resolve_segments(stack: Vec<Vec<char>>, segs: &Vec<Vec<char>>) -> (r: Vec<Vec<char>>)
    ensures
        views(r@) == resolve(views(stack@), views(segs@)),
{
    let ghost start = views(stack@);
    let mut st = stack;
    let mut j: usize = 0;
    assert(views(segs@).take(0) =~= Seq::<Seq<char>>::empty());
    while j < segs.len()
        invariant
            j <= segs.len(),
            views(st@) == resolve(start, views(segs@).take(j as int)),
        decreases segs.len() - j,
    {
        let ghost segv = views(segs@);
        assert(segv.take(j + 1).drop_last() =~= segv.take(j as int));
        assert(segv.take(j + 1).last() == segs@[j as int]@);
        let w = &segs[j];
        if w.len() == 0 || is_single(w, '.') {
        } else if is_double_dot(w) {
            if st.len() > 0 {
                let ghost b = views(st@);
                st.pop();
                assert(views(st@) =~= b.drop_last());
            }
        } else {
            let ghost b = views(st@);
            st.push(w.clone());
            assert(views(st@) =~= b.push(w@));
        }
        j = j + 1;
    }
    assert(views(segs@).take(j as int) =~= views(segs@));
    st
}

pub(crate) fn join_parts(parts: &Vec<Vec<char>>, sep: char) -> (r: Vec<char>)
    ensures
        r@ == join(views(parts@), sep),
{
    let mut out: Vec<char> = Vec::new();
    let mut k: usize = 0;
    while k < parts.len()
        invariant
            k <= parts.len(),
            out@ == join(views(parts@).take(k as int), sep),
        decreases parts.len() - k,
    {
        let ghost pv = views(parts@);
        assert(pv.take(k + 1).drop_last() =~= pv.take(k as int));
        if k > 0 {
            out.push(sep);
        }
        let p = &parts[k];
        let mut i: usize = 0;
        let ghost base = out@;
        while i < p.len()
            invariant
                i <= p.len(),
                out@ == base + p@.take(i as int),
            decreases p.len() - i,
        {
            out.push(p[i]);
            i = i + 1;
            assert(out@ =~= base + p@.take(i as int));
        }
        assert(p@.take(i as int) =~= p@);
        k = k + 1;
        assert(pv.take(k as int).last() == p@);
        assert(k == 1 ==> out@ =~= join(pv.take(k as int), sep));
    }
    assert(views(parts@).take(k as int) =~= views(parts@));
    out
}

fn collapse_chars(s: &Vec<char>) -> (r: Vec<char>)
    ensures
        r@ == collapse_slashes(s@),
{
    let mut out: Vec<char> = Vec::new();
    let mut i: usize = 0;
    assert(s@.skip(0) =~= s@);
    while i < s.len()
        invariant
            i <= s.len(),
            out@ + collapse_slashes(s@.skip(i as int)) == collapse_slashes(s@),
        decreases s.len() - i,
    {
        let ghost rest = s@.skip(i as int);
        if s.len() - i >= 2 && s[i] == '/' && s[i + 1] == '/' {
            out.push('/');
            assert(rest.skip(2) =~= s@.skip(i + 2));
            i = i + 2;
        } else {
            out.push(s[i]);
            assert(rest.skip(1) =~= s@.skip(i + 1));
            i = i + 1;
        }
        assert(out@ + collapse_slashes(s@.skip(i as int)) =~= collapse_slashes(s@));
    }
    assert(s@.skip(i as int).len() == 0);
    assert(out@ + collapse_slashes(s@.skip(i as int)) =~= out@);
    out
}

/// Resolves the request path `req_path` against the directory
/// `in_cur_path`, as a file system resolves `.` and `..`; a drive prefix
/// such as `C:` of the directory is kept in front.
pub fn relative_path(in_cur_path: &str, req_path: &str) -> (r: String)
    ensures
        r@ == relative_path_of(in_cur_path@, req_path@),
{
    let cur = chars_of(in_cur_path);
    let req = chars_of(req_path);
    let mut prefix: Vec<char> = Vec::new();
    let mut i: usize = 0;
    while i < cur.len() && cur[i] != ':'
        invariant
            i <= cur.len(),
            prefix@ == cur@.take(i as int),
            forall|j: int| 0 <= j < i ==> cur@[j] != ':',
        decreases cur.len() - i,
    {
        prefix.push(cur[i]);
        i = i + 1;
        assert(prefix@ =~= cur@.take(i as int));
    }
    if i < cur.len() {
        prefix.push(':');
        assert(first_pos(cur@, ':', i as int));
        assert(forall|p: int| first_pos(cur@, ':', p) ==> p == i);
        assert(prefix@ =~= cur@.take(i + 1));
    } else {
        assert(forall|p: int| !first_pos(cur@, ':', p));
        prefix = Vec::new();
    }
    assert(prefix@ == drive_prefix(cur@));
    let prefix_str = string_of(&prefix);
    let rest = substring_of(in_cur_path, prefix_str.as_str().len(), in_cur_path.len());
    let rest_chars = chars_of(rest);
    let stack = split_chars(&rest_chars, '/');
    let segs = split_chars(&req, '/');
    let resolved = resolve_segments(stack, &segs);
    let joined = join_parts(&resolved, '/');
    let collapsed = collapse_chars(&joined);
    let mut rooted: Vec<char> = Vec::new();
    if !(collapsed.len() > 0 && collapsed[0] == '/') {
        rooted.push('/');
    }
    let mut k: usize = 0;
    let ghost base = rooted@;
    while k < collapsed.len()
        invariant
            k <= collapsed.len(),
            rooted@ == base + collapsed@.take(k as int),
        decreases collapsed.len() - k,
    {
        rooted.push(collapsed[k]);
        k = k + 1;
        assert(rooted@ =~= base + collapsed@.take(k as int));
    }
    assert(collapsed@.take(k as int) =~= collapsed@);
    if req.len() > 0 && req[req.len() - 1] == '/' && rooted[rooted.len() - 1] != '/' {
        rooted.push('/');
    }
    assert(rest@ == char_range(in_cur_path@, vstd::utf8::encode_utf8(prefix@).len() as usize as int,
        vstd::utf8::encode_utf8(in_cur_path@).len() as usize as int));
    assert(collapsed@ == collapse_slashes(join(resolve(split_on(rest@, '/'), split_on(req_path@, '/')), '/')));
    let mut out = string_of(&prefix);
    append_chars(&mut out, &rooted);
    out
}

/// Resolving `.` and `..` leaves no `.` or `..` segment behind, and no empty
/// one, where the starting segments had none of them.
pub proof fn lemma_resolve_no_dots(stack: Seq<Seq<char>>, segs: Seq<Seq<char>>)
    requires
        forall|k: int| 0 <= k < stack.len() ==> #[trigger] stack[k] != seq!['.', '.'] && stack[k] != seq!['.']
            && stack[k].len() > 0,
    ensures
        forall|k: int|
            0 <= k < resolve(stack, segs).len() ==> #[trigger] resolve(stack, segs)[k] != seq!['.', '.']
                && resolve(stack, segs)[k] != seq!['.'] && resolve(stack, segs)[k].len() > 0,
    decreases segs.len(),
{
    if segs.len() > 0 {
        lemma_resolve_no_dots(stack, segs.drop_last());
        let s = resolve(stack, segs.drop_last());
        let w = segs.last();
        if !(w.len() == 0 || w == seq!['.'] || w == seq!['.', '.']) {
            assert(forall|k: int| 0 <= k < s.len() ==> #[trigger] s.push(w)[k] == s[k]);
        } else if w == seq!['.', '.'] && s.len() > 0 {
            assert(forall|k: int| 0 <= k < s.len() - 1 ==> #[trigger] s.drop_last()[k] == s[k]);
        }
    }
}

/// A request target resolved against the root always starts at `/`, and
/// the segments it resolves to hold no `.` or `..`: it never climbs above
/// the root.
pub proof fn lemma_root_path_stays_rooted(req: Seq<char>)
    ensures
        relative_path_of(Seq::empty(), req).len() > 0,
        relative_path_of(Seq::empty(), req)[0] == '/',
        forall|k: int|
            0 <= k < resolve(split_on(Seq::empty(), '/'), split_on(req, '/')).len()
                ==> #[trigger] resolve(split_on(Seq::empty(), '/'), split_on(req, '/'))[k] != seq!['.', '.'],
{
    let e = Seq::<char>::empty();
    assert(!exists|p: int| first_pos(e, ':', p));
    assert(drive_prefix(e) =~= e);
    assert(vstd::utf8::encode_utf8(e) =~= Seq::<u8>::empty());
    assert(char_range(e, 0, 0) =~= e);
    lemma_resolve_no_dots(Seq::empty(), split_on(req, '/'));
    let base = split_on(e, '/');
    assert(base =~= seq![e]);
    lemma_resolve_from_root(split_on(req, '/'));
    let b = resolve(Seq::<Seq<char>>::empty(), split_on(req, '/'));
    let a = resolve(base, split_on(req, '/'));
    assert forall|k: int| 0 <= k < a.len() implies #[trigger] a[k] != seq!['.', '.'] by {
        if a != b {
            assert(a == seq![e] + b);
            if k > 0 {
                assert(a[k] == b[k - 1]);
            } else {
                assert(a[k] == e);
                assert(seq!['.', '.'].len() == 2);
            }
        }
    }
}

/// Starting from the root's single empty segment, `..` may remove it, but
/// what remains after it is what resolving from nothing gives.
proof fn lemma_resolve_from_root(segs: Seq<Seq<char>>)
    ensures
        resolve(seq![Seq::<char>::empty()], segs) == resolve(Seq::empty(), segs)
            || resolve(seq![Seq::<char>::empty()], segs) == seq![Seq::<char>::empty()] + resolve(
            Seq::empty(),
            segs,
        ),
    decreases segs.len(),
{
    if segs.len() > 0 {
        lemma_resolve_from_root(segs.drop_last());
        let a = resolve(seq![Seq::<char>::empty()], segs.drop_last());
        let b = resolve(Seq::<Seq<char>>::empty(), segs.drop_last());
        let w = segs.last();
        if a != b {
            assert(a == seq![Seq::<char>::empty()] + b);
            if w == seq!['.', '.'] {
                if b.len() > 0 {
                    assert(a.drop_last() =~= seq![Seq::<char>::empty()] + b.drop_last());
                } else {
                    assert(a.drop_last() =~= b);
                }
            } else if !(w.len() == 0 || w == seq!['.']) {
                assert(a.push(w) =~= seq![Seq::<char>::empty()] + b.push(w));
            }
        }
    }
}

} // verus!
