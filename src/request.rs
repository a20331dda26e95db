//! The HTTP message engine: one request read from a connection and the
//! response written back. The engine holds no socket: what it would send
//! gathers in an output buffer that the transport drains.
use crate::header::{
    canonical_name, format_header, has_named, find_header, lower_of, pairs, put_header, value_of,
    with_header, first_named, lemma_first_named_unique, Header,
};
use crate::mime::{get_mime_type, mime_of};
use crate::number::{
    decimal_of, decimal_text, hex_of, hex_text, parse_u64, parsed_u64, signed_decimal_of, signed_text,
};
use crate::range::{parse_range, plan_span, range_request, span_of, FileSpan};
use crate::status::{get_http_message, reason_phrase};
use crate::text::{
    chars_of, latin1, relative_path, relative_path_of, split_on, string_of, url_decode, url_decoded,
};
use vstd::prelude::*;
use vstd::string::StringSliceAdditionalSpecFns;

verus! {

/// The lines of `s`, split at each `\r\n` read from the left.
pub open spec fn lines_of(s: Seq<char>) -> Seq<Seq<char>>
    decreases s.len(),
{
    if s.len() == 0 {
        seq![Seq::empty()]
    } else if s.len() >= 2 && s[0] == '\r' && s[1] == '\n' {
        seq![Seq::empty()] + lines_of(s.skip(2))
    } else {
        let r = lines_of(s.skip(1));
        r.update(0, seq![s[0]] + r[0])
    }
}

proof fn lemma_lines_nonempty(s: Seq<char>)
    ensures
        lines_of(s).len() >= 1,
    decreases s.len(),
{
    if s.len() >= 2 && s[0] == '\r' && s[1] == '\n' {
        lemma_lines_nonempty(s.skip(2));
    } else if s.len() > 0 {
        lemma_lines_nonempty(s.skip(1));
    }
}

/// `c` put in front of the first line.
pub open spec fn prepend(c: Seq<char>, r: Seq<Seq<char>>) -> Seq<Seq<char>> {
    r.update(0, c + r[0])
}

fn split_lines(v: &Vec<char>) -> (r: Vec<Vec<char>>)
    ensures
        crate::text::views(r@) == lines_of(v@),
{
    let mut done: Vec<Vec<char>> = Vec::new();
    let mut cur: Vec<char> = Vec::new();
    let mut i: usize = 0;
    proof {
        lemma_lines_nonempty(v@);
        assert(v@.skip(0) =~= v@);
        assert(prepend(cur@, lines_of(v@)) =~= lines_of(v@));
    }
    while i < v.len()
        invariant
            i <= v.len(),
            lines_of(v@) == crate::text::views(done@) + prepend(cur@, lines_of(v@.skip(i as int))),
        decreases v.len() - i,
    {
        let ghost rest = v@.skip(i as int);
        proof {
            lemma_lines_nonempty(rest);
        }
        if v.len() - i >= 2 && v[i] == '\r' && v[i + 1] == '\n' {
            assert(rest.skip(2) =~= v@.skip(i + 2));
            proof {
                lemma_lines_nonempty(v@.skip(i + 2));
            }
            let ghost before = crate::text::views(done@);
            let ghost cv = cur@;
            done.push(cur);
            cur = Vec::new();
            assert(crate::text::views(done@) =~= before.push(cv));
            assert(prepend(cur@, lines_of(v@.skip(i + 2))) =~= lines_of(v@.skip(i + 2)));
            assert(prepend(cv, lines_of(rest)) =~= seq![cv] + lines_of(v@.skip(i + 2)));
            i = i + 2;
        } else {
            assert(rest.skip(1) =~= v@.skip(i + 1));
            proof {
                lemma_lines_nonempty(v@.skip(i + 1));
            }
            let ghost cv = cur@;
            let ghost r = lines_of(v@.skip(i + 1));
            assert(rest[0] == v@[i as int]);
            assert(rest.len() >= 2 ==> rest[1] == v@[i + 1]);
            assert(lines_of(rest) == r.update(0, seq![v@[i as int]] + r[0]));
            cur.push(v[i]);
            assert(cv + (seq![v@[i as int]] + r[0]) =~= cur@ + r[0]);
            assert(prepend(cur@, lines_of(v@.skip(i + 1))) =~= prepend(cv, lines_of(rest)));
            i = i + 1;
        }
    }
    assert(v@.skip(i as int).len() == 0);
    let ghost before = crate::text::views(done@);
    let ghost cv = cur@;
    done.push(cur);
    assert(prepend(cv, lines_of(v@.skip(i as int))) =~= seq![cv]);
    assert(crate::text::views(done@) =~= before.push(cv));
    done
}

/// Whether `": "` starts at position `j` of `l`.
pub open spec fn separator_at(l: Seq<char>, j: int) -> bool {
    l[j] == ':' && l[j + 1] == ' '
}

/// Whether `p` is the first position of `": "` in `l`.
pub open spec fn first_separator(l: Seq<char>, p: int) -> bool {
    0 <= p && p + 1 < l.len() && separator_at(l, p)
        && forall|j: int| 0 <= j < p ==> !#[trigger] separator_at(l, j)
}

/// A header line split once at its first `": "` into name and value.
pub open spec fn header_line(l: Seq<char>) -> Option<(Seq<char>, Seq<char>)> {
    if exists|p: int| first_separator(l, p) {
        let p = choose|p: int| first_separator(l, p);
        Some((l.take(p), l.skip(p + 2)))
    } else {
        None
    }
}

fn split_header_line(l: &Vec<char>) -> (r: Option<(Vec<char>, Vec<char>)>)
    ensures
        r matches Some((n, v)) ==> header_line(l@) == Some((n@, v@)),
        r is None ==> header_line(l@) is None,
{
    let mut p: usize = 0;
    while l.len() > 1 && p < l.len() - 1 && !(l[p] == ':' && l[p + 1] == ' ')
        invariant
            p <= l.len(),
            forall|j: int| 0 <= j < p ==> !#[trigger] separator_at(l@, j),
        decreases l.len() - p,
    {
        p = p + 1;
    }
    if l.len() > 1 && p < l.len() - 1 {
        assert(first_separator(l@, p as int));
        assert(forall|q: int| first_separator(l@, q) ==> q == p) by {
            assert forall|q: int| first_separator(l@, q) implies q == p by {
                if q < p {
                    assert(!separator_at(l@, q));
                }
                if p < q {
                    assert(!separator_at(l@, p as int));
                }
            }
        }
        let mut name: Vec<char> = Vec::new();
        let mut i: usize = 0;
        while i < p
            invariant
                i <= p < l.len(),
                name@ == l@.take(i as int),
            decreases p - i,
        {
            name.push(l[i]);
            i = i + 1;
            assert(name@ =~= l@.take(i as int));
        }
        let mut value: Vec<char> = Vec::new();
        let mut k: usize = p + 2;
        while k < l.len()
            invariant
                p + 2 <= k <= l.len(),
                value@ == l@.subrange(p + 2, k as int),
            decreases l.len() - k,
        {
            value.push(l[k]);
            k = k + 1;
            assert(value@ =~= l@.subrange(p + 2, k as int));
        }
        assert(value@ =~= l@.skip(p + 2));
        Some((name, value))
    } else {
        assert(forall|q: int| !first_separator(l@, q)) by {
            assert forall|q: int| !first_separator(l@, q) by {
                if first_separator(l@, q) && q < p {
                    assert(!separator_at(l@, q));
                }
            }
        }
        None
    }
}

/// The headers of a request head, given its lines: every line after the
/// first that holds `": "` sets the header of the canonical name, and a
/// later line of the same name replaces the value of an earlier one.
pub open spec fn headers_of(lines: Seq<Seq<char>>) -> Seq<(Seq<char>, Seq<char>)>
    decreases lines.len(),
{
    if lines.len() <= 1 {
        Seq::empty()
    } else {
        let hs = headers_of(lines.drop_last());
        match header_line(lines.last()) {
            Some((n, v)) => with_header(hs, canonical_name(n), v),
            None => hs,
        }
    }
}

/// The characters of `t` before its first `?`.
pub open spec fn before_query(t: Seq<char>) -> Seq<char> {
    crate::text::split_on(t, '?')[0]
}

/// Appends `b` to `out`.
pub fn append_bytes(out: &mut Vec<u8>, b: &[u8])
    ensures
        final(out)@ == old(out)@ + b@,
{
    let mut i: usize = 0;
    while i < b.len()
        invariant
            i <= b@.len(),
            out@ == old(out)@ + b@.take(i as int),
        decreases b@.len() - i,
    {
        out.push(b[i]);
        i = i + 1;
        assert(out@ =~= old(out)@ + b@.take(i as int));
    }
    assert(b@.take(i as int) =~= b@);
}

pub open spec fn crlf() -> Seq<u8> {
    seq![13u8, 10u8]
}

/// `HTTP/1.1 ` as bytes.
pub open spec fn version_prefix() -> Seq<u8> {
    seq![72u8, 84u8, 84u8, 80u8, 47u8, 49u8, 46u8, 49u8, 32u8]
}

pub open spec fn utf8(s: Seq<char>) -> Seq<u8> {
    vstd::utf8::encode_utf8(s)
}

/// Each header as `\r\n` followed by `name:value`.
pub open spec fn header_lines(hs: Seq<(Seq<char>, Seq<char>)>) -> Seq<u8>
    decreases hs.len(),
{
    if hs.len() == 0 {
        Seq::empty()
    } else {
        header_lines(hs.drop_last()) + crlf() + utf8(hs.last().0) + seq![58u8] + utf8(hs.last().1)
    }
}

/// The status line and the headers of a response, ended by a blank line.
pub open spec fn head_bytes(code: i32, message: Seq<char>, hs: Seq<(Seq<char>, Seq<char>)>) -> Seq<u8> {
    version_prefix() + signed_text(code as int) + seq![32u8] + utf8(message) + header_lines(hs) + crlf()
        + crlf()
}

/// A chunk of chunked transfer-encoding: the length in hexadecimal, the
/// bytes, each followed by `\r\n`.
pub open spec fn chunk_frame(d: Seq<u8>) -> Seq<u8> {
    hex_text(d.len()) + crlf() + d + crlf()
}

/// The chunk that ends a chunked body: `0\r\n\r\n`.
pub open spec fn last_chunk() -> Seq<u8> {
    seq![48u8] + crlf() + crlf()
}

pub open spec fn content_length_name() -> Seq<char> {
    canonical_name("Content-Length"@)
}

pub open spec fn transfer_encoding_name() -> Seq<char> {
    canonical_name("Transfer-Encoding"@)
}

/// The body length that the header lines of a head declare: the last
/// `Content-Length` value, its name matched in canonical form, that reads
/// as a number; zero when there is none.
pub open spec fn declared_length(lines: Seq<Seq<char>>) -> u64
    decreases lines.len(),
{
    if lines.len() <= 1 {
        0
    } else {
        let n = declared_length(lines.drop_last());
        match header_line(lines.last()) {
            Some((name, v)) => if canonical_name(name) == content_length_name() && parsed_u64(v).is_some() {
                parsed_u64(v).unwrap()
            } else {
                n
            },
            None => n,
        }
    }
}

/// Whether the response headers select chunked transfer-encoding.
pub open spec fn is_chunked(hs: Seq<(Seq<char>, Seq<char>)>) -> bool {
    match value_of(hs, transfer_encoding_name()) {
        Some(v) => lower_of(v) == lower_of("Chunked"@),
        None => false,
    }
}

/// What the engine knows of a request and its response.
pub struct RequestView {
    pub method: Seq<char>,
    pub path: Seq<char>,
    pub origpath: Seq<char>,
    pub headers: Seq<(Seq<char>, Seq<char>)>,
    pub out_headers: Seq<(Seq<char>, Seq<char>)>,
    pub status_code: i32,
    pub status_message: Seq<char>,
    pub headers_written: bool,
    pub length: u64,
    pub consumed: u64,
    pub finished: bool,
    pub connection_closed: bool,
    /// Bytes of the response produced and not yet taken by the transport.
    pub output: Seq<u8>,
}

/// The state of a request just read: status `200 OK`, nothing sent yet.
pub open spec fn fresh_view(head: Seq<char>) -> RequestView {
    let hs = headers_of(lines_of(head));
    RequestView {
        method: request_words(head)[0],
        path: relative_path_of(Seq::empty(), url_decoded(utf8(target_of(head)), Seq::empty())),
        origpath: relative_path_of(Seq::empty(), target_of(head)),
        headers: hs,
        out_headers: Seq::empty(),
        status_code: 200,
        status_message: "OK"@,
        headers_written: false,
        length: declared_length(lines_of(head)),
        consumed: 0,
        finished: false,
        connection_closed: false,
        output: Seq::empty(),
    }
}

/// `b` added to the output, unless the connection is known to be dead.
pub open spec fn emitted(v: RequestView, b: Seq<u8>) -> RequestView {
    if v.connection_closed {
        v
    } else {
        RequestView { output: v.output + b, ..v }
    }
}

/// The state after the headers are sent: where no `Content-Length` was set,
/// `Transfer-Encoding: Chunked` is added first. Sending them again does
/// nothing.
pub open spec fn headers_sent(v: RequestView) -> RequestView {
    if v.headers_written {
        v
    } else {
        let hs = if has_named(v.out_headers, content_length_name()) {
            v.out_headers
        } else {
            with_header(v.out_headers, transfer_encoding_name(), "Chunked"@)
        };
        let v1 = RequestView { out_headers: hs, headers_written: true, ..v };
        emitted(v1, head_bytes(v.status_code, v.status_message, hs))
    }
}

/// The state after `d` is written as (part of) the body. Writing nothing
/// sends the head if it has not gone, and no chunk: an empty chunk would
/// end the body.
pub open spec fn written(v: RequestView, d: Seq<u8>) -> RequestView {
    let v1 = headers_sent(v);
    if d.len() == 0 {
        v1
    } else if is_chunked(v1.out_headers) {
        emitted(v1, chunk_frame(d))
    } else {
        emitted(v1, d)
    }
}

/// The state after the response is ended; ending it again does nothing.
pub open spec fn ended(v: RequestView) -> RequestView {
    if v.finished {
        v
    } else {
        let v1 = headers_sent(v);
        let v2 = RequestView { finished: true, ..v1 };
        if is_chunked(v1.out_headers) {
            emitted(v2, last_chunk())
        } else {
            v2
        }
    }
}

/// How many body bytes a read of `bytes` asks for: the rest of the body
/// when `bytes` is zero or reaches past its end.
pub open spec fn read_amount(v: RequestView, bytes: u64) -> u64 {
    if v.consumed + bytes > v.length || bytes == 0 {
        (v.length - v.consumed) as u64
    } else {
        bytes
    }
}

/// How long a body or frame payload is and how much of it was read; never
/// more is counted as read than there is.
pub(crate) struct Counter {
    pub(crate) length: u64,
    pub(crate) consumed: u64,
}

impl Counter {
    #[verifier::type_invariant]
    spec fn within(self) -> bool {
        self.consumed <= self.length
    }

    pub(crate) fn new(length: u64) -> (r: Counter)
        ensures
            r.length == length,
            r.consumed == 0,
    {
        Counter { length, consumed: 0 }
    }

    pub(crate) fn left(&self) -> (r: u64)
        ensures
            self.consumed <= self.length,
            r == self.length - self.consumed,
    {
        proof {
            use_type_invariant(self);
        }
        self.length - self.consumed
    }

    pub(crate) fn advance(&mut self, n: u64)
        requires
            old(self).consumed + n <= old(self).length,
        ensures
            final(self).length == old(self).length,
            final(self).consumed == old(self).consumed + n,
    {
        self.consumed = self.consumed + n;
    }
}

/// One HTTP request and the response to it.
pub struct Request {
    pub path: String,
    pub origpath: String,
    pub method: String,
    headers: Vec<Header>,
    out_headers: Vec<Header>,
    status_code: i32,
    status_message: String,
    headers_written: bool,
    body: Counter,
    finished: bool,
    connection_closed: bool,
    output: Vec<u8>,
}

impl View for Request {
    type V = RequestView;

    closed spec fn view(&self) -> RequestView {
        RequestView {
            method: self.method@,
            path: self.path@,
            origpath: self.origpath@,
            headers: pairs(self.headers@),
            out_headers: pairs(self.out_headers@),
            status_code: self.status_code,
            status_message: self.status_message@,
            headers_written: self.headers_written,
            length: self.body.length,
            consumed: self.body.consumed,
            finished: self.finished,
            connection_closed: self.connection_closed,
            output: self.output@,
        }
    }
}

/// The request line's words, split at each space.
pub open spec fn request_words(head: Seq<char>) -> Seq<Seq<char>> {
    crate::text::split_on(lines_of(head)[0], ' ')
}

/// Whether a head can be read as a request: its first line holds a method
/// and a target separated by a space.
pub open spec fn head_is_valid(head: Seq<char>) -> bool {
    request_words(head).len() >= 2
}

pub open spec fn target_of(head: Seq<char>) -> Seq<char> {
    before_query(request_words(head)[1])
}

impl Request {
    /// Reads a request head: the request line, then one header per line.
    /// The target loses its query string; `path` is it percent-decoded and
    /// normalised, `origpath` normalised only. A head whose first line
    /// holds no space is refused.
    pub fn new(head: &str) -> (r: Option<Request>)
        ensures
            r is Some <==> head_is_valid(head@),
            r matches Some(q) ==> q@ == fresh_view(head@),
    {
        let lines = split_lines(&chars_of(head));
        proof {
            lemma_lines_nonempty(head@);
        }
        let words = crate::text::split_chars(&lines[0], ' ');
        if words.len() < 2 {
            return None;
        }
        let mut headers: Vec<Header> = Vec::new();
        let mut length: u64 = 0;
        let cl = format_header("Content-Length");
        let mut i: usize = 1;
        let ghost lv = crate::text::views(lines@);
        assert(lv.take(1).len() <= 1);
        while i < lines.len()
            invariant
                1 <= i <= lines.len(),
                lv == crate::text::views(lines@),
                pairs(headers@) == headers_of(lv.take(i as int)),
                length == declared_length(lv.take(i as int)),
                cl@ == content_length_name(),
            decreases lines.len() - i,
        {
            assert(lv.take(i + 1).drop_last() =~= lv.take(i as int));
            assert(lv.take(i + 1).last() == lines@[i as int]@);
            match split_header_line(&lines[i]) {
                Some((n, v)) => {
                    let name = format_header(string_of(&n).as_str());
                    if name.eq(&cl) {
                        match parse_u64(&v) {
                            Some(x) => {
                                length = x;
                            },
                            None => {},
                        }
                    }
                    put_header(&mut headers, name, string_of(&v));
                },
                None => {},
            }
            i = i + 1;
        }
        assert(lv.take(i as int) =~= lv);
        let target_words = crate::text::split_chars(&words[1], '?');
        proof {
            crate::text::lemma_split_on_nonempty(words@[1]@, '?');
        }
        let target = string_of(&target_words[0]);
        let empty = String::new();
        let decoded = url_decode(target.as_str());
        let path = relative_path(empty.as_str(), decoded.as_str());
        let origpath = relative_path(empty.as_str(), target.as_str());
        let method = string_of(&words[0]);
        let r = Request {
            path,
            origpath,
            method,
            headers,
            out_headers: Vec::new(),
            status_code: 200,
            status_message: string_of(&chars_of("OK")),
            headers_written: false,
            body: Counter::new(length),
            finished: false,
            connection_closed: false,
            output: Vec::new(),
        };
        assert(lines@[0]@ == lines_of(head@)[0]);
        assert(words@[1]@ == request_words(head@)[1]);
        assert(target@ == target_of(head@));
        assert(r@.method == request_words(head@)[0]);
        assert(r@.length == declared_length(lines_of(head@)));
        assert(r@.out_headers =~= Seq::<(Seq<char>, Seq<char>)>::empty());
        assert(r@ =~= fresh_view(head@));
        Some(r)
    }
}

impl Request {
    /// Sets a response header; a header of the same canonical name is
    /// replaced in place.
    pub fn set_header(&mut self, header: &str, value: &str)
        ensures
            final(self)@ == (RequestView {
                out_headers: with_header(old(self)@.out_headers, canonical_name(header@), value@),
                ..old(self)@
            }),
    {
        let name = format_header(header);
        put_header(&mut self.out_headers, name, string_of(&chars_of(value)));
    }

    /// Whether a response header of that canonical name is set.
    pub fn header_exists(&self, header: &str) -> (r: bool)
        ensures
            r == has_named(self@.out_headers, canonical_name(header@)),
    {
        let name = format_header(header);
        find_header(&self.out_headers, &name).is_some()
    }

    /// Whether the response header of that canonical name is set to
    /// `value`, compared without regard to case.
    pub fn header_value_equals(&self, header: &str, value: &str) -> (r: bool)
        ensures
            r == match value_of(self@.out_headers, canonical_name(header@)) {
                Some(v) => lower_of(v) == lower_of(value@),
                None => false,
            },
    {
        let name = format_header(header);
        match find_header(&self.out_headers, &name) {
            Some(k) => {
                proof {
                    lemma_first_named_unique(pairs(self.out_headers@), name@, k as int);
                }
                let a = crate::header::lowercase(self.out_headers[k].value.as_str());
                let b = crate::header::lowercase(value);
                a.eq(&b)
            },
            None => false,
        }
    }

    /// The value of the request header of that canonical name, or an empty
    /// string.
    pub fn get_header(&self, header: &str) -> (r: String)
        ensures
            r@ == match value_of(self@.headers, canonical_name(header@)) {
                Some(v) => v,
                None => Seq::empty(),
            },
    {
        let name = format_header(header);
        match find_header(&self.headers, &name) {
            Some(k) => {
                proof {
                    lemma_first_named_unique(pairs(self.headers@), name@, k as int);
                }
                self.headers[k].value.clone()
            },
            None => String::new(),
        }
    }

    /// Sets the status code and its reason phrase.
    pub fn set_status(&mut self, code: i32)
        ensures
            final(self)@ == (RequestView {
                status_code: code,
                status_message: reason_phrase(code),
                ..old(self)@
            }),
    {
        self.status_code = code;
        self.status_message = get_http_message(code);
    }

    fn emit(&mut self, b: &[u8])
        ensures
            final(self)@ == emitted(old(self)@, b@),
    {
        if !self.connection_closed {
            append_bytes(&mut self.output, b);
        }
    }

    fn head(&self) -> (r: Vec<u8>)
        ensures
            r@ == head_bytes(self@.status_code, self@.status_message, self@.out_headers),
    {
        let mut out: Vec<u8> = Vec::new();
        out.push(72u8);
        out.push(84u8);
        out.push(84u8);
        out.push(80u8);
        out.push(47u8);
        out.push(49u8);
        out.push(46u8);
        out.push(49u8);
        out.push(32u8);
        let code = signed_decimal_of(self.status_code);
        append_bytes(&mut out, code.as_slice());
        out.push(32u8);
        append_bytes(&mut out, self.status_message.as_str().as_bytes());
        let ghost base = out@;
        let ghost hs = pairs(self.out_headers@);
        let mut k: usize = 0;
        assert(hs.take(0) =~= Seq::<(Seq<char>, Seq<char>)>::empty());
        assert(base =~= base + header_lines(hs.take(0)));
        while k < self.out_headers.len()
            invariant
                k <= self.out_headers.len(),
                hs == pairs(self.out_headers@),
                out@ == base + header_lines(hs.take(k as int)),
            decreases self.out_headers.len() - k,
        {
            assert(hs.take(k + 1).drop_last() =~= hs.take(k as int));
            out.push(13u8);
            out.push(10u8);
            append_bytes(&mut out, self.out_headers[k].name.as_str().as_bytes());
            out.push(58u8);
            append_bytes(&mut out, self.out_headers[k].value.as_str().as_bytes());
            k = k + 1;
            assert(out@ =~= base + header_lines(hs.take(k as int)));
        }
        assert(hs.take(k as int) =~= hs);
        out.push(13u8);
        out.push(10u8);
        out.push(13u8);
        out.push(10u8);
        assert(out@ =~= head_bytes(self@.status_code, self@.status_message, self@.out_headers));
        out
    }

    fn send_headers(&mut self)
        ensures
            final(self)@ == headers_sent(old(self)@),
    {
        if self.headers_written {
            return;
        }
        if !self.header_exists("Content-Length") {
            self.set_header("Transfer-Encoding", "Chunked");
        }
        self.headers_written = true;
        let h = self.head();
        self.emit(h.as_slice());
    }

    fn chunked(&self) -> (r: bool)
        ensures
            r == is_chunked(self@.out_headers),
    {
        self.header_value_equals("Transfer-Encoding", "Chunked")
    }

    /// Writes `data` as body: the headers go first if they have not, and
    /// with chunked transfer-encoding the bytes go as one chunk.
    pub fn write(&mut self, data: &[u8])
        ensures
            final(self)@ == written(old(self)@, data@),
    {
        self.send_headers();
        if data.len() == 0 {
            return;
        }
        if self.chunked() {
            let mut frame = hex_of(data.len() as u64);
            frame.push(13u8);
            frame.push(10u8);
            append_bytes(&mut frame, data);
            frame.push(13u8);
            frame.push(10u8);
            assert(frame@ =~= chunk_frame(data@));
            self.emit(frame.as_slice());
        } else {
            self.emit(data);
        }
    }

    /// Writes the UTF-8 bytes of `data` as body.
    pub fn write_string(&mut self, data: &str)
        ensures
            final(self)@ == written(old(self)@, data.spec_bytes()),
    {
        self.write(data.as_bytes());
    }

    /// Ends the response: the headers go if they have not, and a chunked
    /// body gets its last chunk. A second call does nothing. The request
    /// body must have been read to its end first, so that the next request
    /// on the connection starts where it should, unless the connection is
    /// dead.
    pub fn end(&mut self)
        requires
            old(self)@.consumed == old(self)@.length || old(self)@.connection_closed,
        ensures
            final(self)@ == ended(old(self)@),
    {
        if self.finished {
            return;
        }
        self.send_headers();
        self.finished = true;
        if self.chunked() {
            let mut last: Vec<u8> = Vec::new();
            last.push(48u8);
            last.push(13u8);
            last.push(10u8);
            last.push(13u8);
            last.push(10u8);
            assert(last@ =~= last_chunk());
            self.emit(last.as_slice());
        }
    }

    pub fn path_string(&self) -> (r: String)
        ensures
            r@ == self@.path,
    {
        self.path.clone()
    }

    pub fn origpath_string(&self) -> (r: String)
        ensures
            r@ == self@.origpath,
    {
        self.origpath.clone()
    }

    /// Hands over the bytes produced so far, for the transport to send.
    pub fn take_output(&mut self) -> (r: Vec<u8>)
        ensures
            r@ == old(self)@.output,
            final(self)@ == (RequestView { output: Seq::empty(), ..old(self)@ }),
    {
        let mut out: Vec<u8> = Vec::new();
        append_bytes(&mut out, self.output.as_slice());
        self.output = Vec::new();
        out
    }

    /// Records that the connection failed: what was not sent is dropped
    /// and nothing more is produced.
    pub fn mark_closed(&mut self)
        ensures
            final(self)@ == (RequestView {
                connection_closed: true,
                output: Seq::empty(),
                ..old(self)@
            }),
    {
        self.connection_closed = true;
        self.output = Vec::new();
    }

    pub fn connection_closed(&self) -> (r: bool)
        ensures
            r == self@.connection_closed,
    {
        self.connection_closed
    }

    pub fn headers_written(&self) -> (r: bool)
        ensures
            r == self@.headers_written,
    {
        self.headers_written
    }

    pub fn finished(&self) -> (r: bool)
        ensures
            r == self@.finished,
    {
        self.finished
    }

    pub fn status_code(&self) -> (r: i32)
        ensures
            r == self@.status_code,
    {
        self.status_code
    }

    /// The number of body bytes not read yet.
    pub fn body_left(&self) -> (r: u64)
        ensures
            self@.consumed <= self@.length,
            r == self@.length - self@.consumed,
    {
        self.body.left()
    }

    /// How many body bytes a read of `bytes` takes: the rest of the body
    /// when `bytes` is zero or reaches past its end.
    pub fn read_len(&self, bytes: u64) -> (r: u64)
        ensures
            r == read_amount(self@, bytes),
            self@.consumed + r <= self@.length,
    {
        let left = self.body.left();
        if bytes > left || bytes == 0 {
            left
        } else {
            bytes
        }
    }

    /// Records that `n` body bytes were read.
    pub fn note_read(&mut self, n: u64)
        requires
            old(self)@.consumed + n <= old(self)@.length,
        ensures
            final(self)@ == (RequestView { consumed: (old(self)@.consumed + n) as u64, ..old(self)@ }),
    {
        self.body.advance(n);
    }
}

/// The extension of a file path: what follows its last `.`, or the whole
/// path when it has none.
pub open spec fn extension_of(path: Seq<char>) -> Seq<char> {
    split_on(path, '.').last()
}

/// A number as header text.
pub open spec fn number_text(n: u64) -> Seq<char> {
    latin1(decimal_text(n as nat))
}

/// `bytes a-b/size`, the value of `Content-Range`.
pub open spec fn content_range_text(a: u64, b: u64, size: u64) -> Seq<char> {
    "bytes "@ + number_text(a) + seq!['-'] + number_text(b) + seq!['/'] + number_text(size)
}

/// The value of a request header, or nothing.
pub open spec fn header_or_empty(hs: Seq<(Seq<char>, Seq<char>)>, name: Seq<char>) -> Seq<char> {
    match value_of(hs, name) {
        Some(v) => v,
        None => Seq::empty(),
    }
}

/// The span of a file of `size` bytes that the request asks for.
pub open spec fn requested_span(v: RequestView, size: u64) -> FileSpan {
    span_of(range_request(header_or_empty(v.headers, canonical_name("Range"@))), size)
}

/// The state after the headers for sending a file of `size` bytes at `path`
/// are set: its content type where the extension is known, `Content-Range`
/// where a range was asked, `Content-Length`, and the status.
pub open spec fn file_prepared(v: RequestView, path: Seq<char>, size: u64) -> RequestView {
    let mime = mime_of(extension_of(path));
    let h0 = v.out_headers;
    let h1 = if mime.len() > 0 {
        with_header(h0, canonical_name("Content-Type"@), mime)
    } else {
        h0
    };
    let span = requested_span(v, size);
    let h2 = match span.range {
        Some((a, b)) => with_header(h1, canonical_name("Content-Range"@), content_range_text(a, b, size)),
        None => h1,
    };
    let h3 = with_header(h2, content_length_name(), number_text(span.length));
    RequestView {
        out_headers: h3,
        status_code: span.status,
        status_message: reason_phrase(span.status),
        ..v
    }
}

fn number_chars(n: u64) -> (r: Vec<char>)
    ensures
        r@ == number_text(n),
{
    let d = decimal_of(n);
    let mut out: Vec<char> = Vec::new();
    let mut i: usize = 0;
    while i < d.len()
        invariant
            i <= d.len(),
            d@ == decimal_text(n as nat),
            out@ == latin1(d@.take(i as int)),
        decreases d.len() - i,
    {
        out.push(d[i] as char);
        i = i + 1;
        assert(out@ =~= latin1(d@.take(i as int)));
    }
    assert(d@.take(i as int) =~= d@);
    out
}

fn last_piece(v: &Vec<Vec<char>>) -> (r: Vec<char>)
    requires
        v.len() > 0,
    ensures
        r@ == crate::text::views(v@).last(),
{
    v[v.len() - 1].clone()
}

impl Request {
    /// Sets the headers and status for sending a file of `size` bytes at
    /// `path`, honouring a `Range` request header. Gives the span of the
    /// file to send, and how many bytes of it go out as body: none when
    /// `no_body` is set, as for `HEAD`.
    pub fn prepare_file(&mut self, path: &str, size: u64, no_body: bool) -> (r: (FileSpan, u64))
        ensures
            final(self)@ == file_prepared(old(self)@, path@, size),
            r.0 == requested_span(old(self)@, size),
            r.1 == if no_body { 0 } else { r.0.length },
    {
        let pieces = crate::text::split_chars(&chars_of(path), '.');
        proof {
            crate::text::lemma_split_on_nonempty(path@, '.');
        }
        let ext = string_of(&last_piece(&pieces));
        let mime = get_mime_type(ext.as_str());
        if !mime.as_str().is_empty() {
            self.set_header("Content-Type", mime.as_str());
        }
        let range_value = self.get_header("Range");
        let span = plan_span(parse_range(range_value.as_str()), size);
        match span.range {
            Some((a, b)) => {
                let mut text = chars_of("bytes ");
                text.append(&mut number_chars(a));
                text.push('-');
                text.append(&mut number_chars(b));
                text.push('/');
                text.append(&mut number_chars(size));
                assert(text@ =~= content_range_text(a, b, size));
                self.set_header("Content-Range", string_of(&text).as_str());
            },
            None => {},
        }
        let len_text = string_of(&number_chars(span.length));
        self.set_header("Content-Length", len_text.as_str());
        self.set_status(span.status);
        let body = if no_body { 0 } else { span.length };
        (span, body)
    }
}

/// After a header is given a value, looking that name up finds the value.
pub proof fn lemma_value_after_set(hs: Seq<(Seq<char>, Seq<char>)>, name: Seq<char>, val: Seq<char>)
    ensures
        value_of(with_header(hs, name, val), name) == Some(val),
{
    let r = with_header(hs, name, val);
    if has_named(hs, name) {
        crate::header::lemma_has_first(hs, name);
        let k = choose|k: int| first_named(hs, name, k);
        lemma_first_named_unique(hs, name, k);
        assert(first_named(r, name, k));
        lemma_first_named_unique(r, name, k);
    } else {
        let k = hs.len() as int;
        assert(first_named(r, name, k));
        lemma_first_named_unique(r, name, k);
    }
}

/// A response whose headers set no `Content-Length` before its first write
/// goes chunked: that write sends the head, with `Transfer-Encoding:
/// Chunked` added, and then the data as one chunk; each later write sends
/// one more chunk, and ending sends `0\r\n\r\n`. Writes of nothing add no
/// chunk, so only the end sends the empty one.
pub proof fn lemma_unset_length_is_chunked(v: RequestView, d: Seq<u8>, e: Seq<u8>)
    requires
        !v.headers_written,
        !v.finished,
        !v.connection_closed,
        !has_named(v.out_headers, content_length_name()),
    ensures
        ({
            let hs = with_header(v.out_headers, "Transfer-Encoding"@, "Chunked"@);
            let w = written(v, d);
            &&& value_of(hs, "Transfer-Encoding"@) == Some("Chunked"@)
            &&& w.output == v.output + head_bytes(v.status_code, v.status_message, hs) + (if d.len()
                > 0 {
                chunk_frame(d)
            } else {
                Seq::empty()
            })
            &&& written(w, e).output == w.output + (if e.len() > 0 {
                chunk_frame(e)
            } else {
                Seq::empty()
            })
            &&& ended(w).output == w.output + last_chunk()
        }),
{
    lemma_header_names_literal();
    let hs = with_header(v.out_headers, transfer_encoding_name(), "Chunked"@);
    lemma_value_after_set(v.out_headers, transfer_encoding_name(), "Chunked"@);
    assert(is_chunked(hs));
    assert(headers_sent(v).out_headers == hs);
    let w = written(v, d);
    if d.len() == 0 {
        assert(w.output =~= v.output + head_bytes(v.status_code, v.status_message, hs) + Seq::empty());
    }
    if e.len() == 0 {
        assert(written(w, e).output =~= w.output + Seq::<u8>::empty());
    }
}

/// Ending a response a second time changes nothing: exactly one terminal
/// sequence is produced.
pub proof fn lemma_end_idempotent(v: RequestView)
    ensures
        ended(ended(v)) == ended(v),
{
}

/// The head goes out once: after the headers are sent, sending them again,
/// writing more body or ending never repeats it.
pub proof fn lemma_headers_sent_once(v: RequestView)
    ensures
        headers_sent(headers_sent(v)) == headers_sent(v),
        headers_sent(v).headers_written,
{
}

pub open spec fn content_type_name() -> Seq<char> {
    canonical_name("Content-Type"@)
}

pub open spec fn content_range_name() -> Seq<char> {
    canonical_name("Content-Range"@)
}

/// The header names the engine sets are written as they are spelled.
pub proof fn lemma_header_names_literal()
    ensures
        transfer_encoding_name() == "Transfer-Encoding"@,
        content_length_name() == "Content-Length"@,
        content_range_name() == "Content-Range"@,
        content_type_name() == "Content-Type"@,
{
    reveal_strlit("Transfer-Encoding");
    reveal_strlit("Content-Length");
    reveal_strlit("Content-Range");
    reveal_strlit("Content-Type");
    crate::header::lemma_canonical_fixed("Transfer-Encoding"@);
    crate::header::lemma_canonical_fixed("Content-Length"@);
    crate::header::lemma_canonical_fixed("Content-Range"@);
    crate::header::lemma_canonical_fixed("Content-Type"@);
}

/// `Transfer-Encoding`, `Content-Length`, `Content-Range` and `Content-Type`
/// stay four different headers.
pub proof fn lemma_file_header_names_distinct()
    ensures
        transfer_encoding_name() != content_length_name(),
        transfer_encoding_name() != content_range_name(),
        transfer_encoding_name() != content_type_name(),
        content_range_name() != content_length_name(),
        content_type_name() != content_length_name(),
        content_type_name() != content_range_name(),
{
    reveal_strlit("Transfer-Encoding");
    reveal_strlit("Content-Length");
    reveal_strlit("Content-Range");
    reveal_strlit("Content-Type");
    crate::header::lemma_canonical_length("Transfer-Encoding"@);
    crate::header::lemma_canonical_length("Content-Length"@);
    crate::header::lemma_canonical_length("Content-Range"@);
    crate::header::lemma_canonical_length("Content-Type"@);
}

/// A file response is sent with a fixed length: after its headers are set
/// (with no `Transfer-Encoding` of the caller's), `Content-Length` holds the
/// span's length, `Content-Range` the span asked for, the status is the
/// span's, and ending the response sends the head alone and no chunk. So a
/// `HEAD` request, which writes no body, gets the headers and nothing else.
pub proof fn lemma_file_response(v: RequestView, path: Seq<char>, size: u64)
    requires
        !v.headers_written,
        !v.finished,
        !v.connection_closed,
        !has_named(v.out_headers, transfer_encoding_name()),
    ensures
        ({
            let w = file_prepared(v, path, size);
            let span = requested_span(v, size);
            &&& value_of(w.out_headers, "Content-Length"@) == Some(number_text(span.length))
            &&& (span.range matches Some((a, b)) ==> value_of(w.out_headers, "Content-Range"@) == Some(
                content_range_text(a, b, size),
            ))
            &&& w.status_code == span.status
            &&& w.status_message == reason_phrase(span.status)
            &&& !is_chunked(headers_sent(w).out_headers)
            &&& ended(w).output == v.output + head_bytes(span.status, reason_phrase(span.status), w.out_headers)
            &&& ended(w).finished
        }),
{
    lemma_header_names_literal();
    lemma_file_header_names_distinct();
    let mime = mime_of(extension_of(path));
    let h0 = v.out_headers;
    let h1 = if mime.len() > 0 {
        with_header(h0, content_type_name(), mime)
    } else {
        h0
    };
    let span = requested_span(v, size);
    let h2 = match span.range {
        Some((a, b)) => with_header(h1, content_range_name(), content_range_text(a, b, size)),
        None => h1,
    };
    let h3 = with_header(h2, content_length_name(), number_text(span.length));
    if mime.len() > 0 {
        crate::header::lemma_value_of_other(h0, content_type_name(), mime, transfer_encoding_name());
    }
    match span.range {
        Some((a, b)) => {
            crate::header::lemma_value_of_other(h1, content_range_name(), content_range_text(a, b, size), transfer_encoding_name());
            lemma_value_after_set(h1, content_range_name(), content_range_text(a, b, size));
            crate::header::lemma_value_of_other(h2, content_length_name(), number_text(span.length), content_range_name());
        },
        None => {},
    }
    crate::header::lemma_value_of_other(h2, content_length_name(), number_text(span.length), transfer_encoding_name());
    lemma_value_after_set(h2, content_length_name(), number_text(span.length));
    assert(value_of(h0, transfer_encoding_name()).is_none());
    assert(value_of(h3, transfer_encoding_name()).is_none());
    assert(has_named(h3, content_length_name()));
    assert(file_prepared(v, path, size).out_headers == h3);
}

} // verus!
